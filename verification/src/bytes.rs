//! Operations on byte sequences.
use vstd::prelude::*;
use crate::ast::ASTError;
use crate::ast::GraphView;
use crate::ast::NodeId;
use crate::ast::AST;
use crate::node::Edge;
use crate::node::Node;
use crate::node::NodeView;
use crate::node::Primitive;
use crate::node::PrimitiveView;
use crate::reduce::Kind;
use crate::rules::carries;
use crate::rules::passes;
use crate::rules::passes_two;
use crate::tags::BytesOpTag;
use crate::tags::ConstructorTag;

verus! {

/// A sequence of `size` zero bytes.
pub fn zeroes(size: usize) -> (r: Vec<u8>)
    ensures
        r@ == Seq::new(size as nat, |i: int| 0u8),
{
    let mut bytes: Vec<u8> = Vec::new();
    let mut i: usize = 0;
    while i < size
        invariant
            0 <= i <= size,
            bytes@ == Seq::new(i as nat, |j: int| 0u8),
        decreases size - i,
    {
        bytes.push(0);
        proof {
            assert(bytes@ =~= Seq::new((i + 1) as nat, |j: int| 0u8));
        }
        i += 1;
    }
    bytes
}

/// The byte at `index` as a number. An index beyond the sequence is a
/// domain error.
pub fn byte_at(bytes: &Vec<u8>, index: usize) -> (r: Result<usize, &'static str>)
    ensures
        r == (if index < bytes@.len() {
            Ok::<usize, &'static str>(bytes@[index as int] as usize)
        } else {
            Err::<usize, &'static str>("Index out of range")
        }),
{
    if index < bytes.len() {
        Ok(bytes[index] as usize)
    } else {
        Err("Index out of range")
    }
}

/// The sequence with `value` added at its end. A value that is no byte is
/// a domain error.
pub fn with_byte(bytes: Vec<u8>, value: usize) -> (r: Result<Vec<u8>, &'static str>)
    ensures
        value <= 255 ==> r is Ok && r->Ok_0@ == bytes@.push(value as u8),
        value > 255 ==> r == Err::<Vec<u8>, &'static str>("Value larger than byte"),
{
    if value > 255 {
        return Err("Value larger than byte");
    }
    let mut bytes = bytes;
    bytes.push(value as u8);
    Ok(bytes)
}

impl GraphView {
    /// A new node with the primitive `value` stands in the place of
    /// `node`.
    pub open spec fn primitive_done(
        self,
        node: NodeId,
        value: PrimitiveView,
        done: GraphView,
        result: NodeId,
    ) -> bool {
        self.nodes.contains_key(node) && !self.nodes.contains_key(result) && done
            == self.with_node(result, NodeView::Primitive(value)).replaced(node, result)
    }

    /// What a byte operation does at the data node `id`: its arguments
    /// are forced and read, first to last, and its result stands in the
    /// place of the node. `New` makes that many zero bytes, `Get` reads the
    /// byte at an index, `Length` counts the bytes, `Push` adds a byte at
    /// the end.
    pub open spec fn byte_operation(
        self,
        tag: BytesOpTag,
        id: NodeId,
        fuel: nat,
        to: GraphView,
        result: NodeId,
    ) -> bool {
        exists|binders: Seq<NodeId>, first: GraphView, second: GraphView, number: usize,
            bytes: Seq<u8>|
            #![trigger self.lists_binders(id, binders), passes_two(first, second, result), passes(first, result, number as nat), carries(bytes)]
            self.lists_binders(id, binders) && passes_two(first, second, result) && passes(
                first,
                result,
                number as nat,
            ) && carries(bytes) && match tag {
                BytesOpTag::New => binders.len() == 1 && self.extracts(
                    binders[0],
                    fuel,
                    first,
                    PrimitiveView::Number(number),
                ) && first.primitive_done(
                    id,
                    PrimitiveView::Bytes(Seq::new(number as nat, |i: int| 0u8)),
                    to,
                    result,
                ),
                BytesOpTag::Get => binders.len() == 2 && self.extracts(
                    binders[0],
                    fuel,
                    first,
                    PrimitiveView::Number(number),
                ) && first.extracts(binders[1], fuel, second, PrimitiveView::Bytes(bytes))
                    && number < bytes.len() && second.primitive_done(
                    id,
                    PrimitiveView::Number(bytes[number as int] as usize),
                    to,
                    result,
                ),
                BytesOpTag::Length => binders.len() == 1 && number == bytes.len()
                    && self.extracts(binders[0], fuel, first, PrimitiveView::Bytes(bytes))
                    && first.primitive_done(id, PrimitiveView::Number(number), to, result),
                BytesOpTag::Push => binders.len() == 2 && self.extracts(
                    binders[0],
                    fuel,
                    first,
                    PrimitiveView::Number(number),
                ) && first.extracts(binders[1], fuel, second, PrimitiveView::Bytes(bytes))
                    && number <= 255 && second.primitive_done(
                    id,
                    PrimitiveView::Bytes(bytes.push(number as u8)),
                    to,
                    result,
                ),
                _ => false,
            }
    }
}

impl BytesOpTag {
    /// The number of arguments that the operation takes; `None` for an
    /// operation that has no rule.
    pub open spec fn argument_count(self) -> Option<nat> {
        match self {
            BytesOpTag::New => Some(1),
            BytesOpTag::Length => Some(1),
            BytesOpTag::Get => Some(2),
            BytesOpTag::Push => Some(2),
            _ => None,
        }
    }
}

impl GraphView {
    /// The number of arguments of the data node `id`, counted up to three:
    /// its binder edges from index 0 up to the first that is missing.
    pub open spec fn argument_total(self, id: NodeId) -> nat {
        if self.child(id, Edge::Binder(0)) is None {
            0
        } else if self.child(id, Edge::Binder(1)) is None {
            1
        } else if self.child(id, Edge::Binder(2)) is None {
            2
        } else {
            3
        }
    }

    /// What reading bytes from the binding `closure` returns where the
    /// binding holds a value; a value that is a number is reported at
    /// `at`.
    pub open spec fn bytes_outcome(self, closure: NodeId, at: NodeId) -> Result<
        Seq<u8>,
        ASTError,
    > {
        if !self.releasable(closure) {
            Err(self.release_error(closure))
        } else {
            match self.held(closure) {
                Some(PrimitiveView::Bytes(bytes)) => Ok(bytes),
                Some(_) => Err(ASTError::Custom(at, "Expected Bytes")),
                None => Err(ASTError::Custom(closure, "Not a primitive")),
            }
        }
    }

    /// The arguments of the byte operation `tag` at `id` are bound to
    /// values that need no reduction: the first, and the second once the
    /// first has been read.
    pub open spec fn bytes_ready(self, tag: BytesOpTag, id: NodeId, depth: nat) -> bool {
        let first = self.binding(id, 0);
        let second = self.binding(id, 1);
        &&& tag.argument_count() == Some(self.argument_total(id))
        &&& self.holds_value(first, depth)
        &&& tag.argument_count() == Some(2nat) && self.number_outcome(first, first) is Ok
            ==> self.read_or_kept(first).holds_value(second, depth)
    }

    /// The graph after the byte operation `tag` at `id` has read its
    /// arguments, as far as it got.
    pub open spec fn bytes_read(self, tag: BytesOpTag, id: NodeId) -> GraphView {
        let first = self.binding(id, 0);
        let second = self.binding(id, 1);
        if tag.argument_count() == Some(2nat) && self.number_outcome(first, first) is Ok {
            self.read_or_kept(first).read_or_kept(second)
        } else {
            self.read_or_kept(first)
        }
    }

    /// What the byte operation `tag` at `id` computes from arguments that
    /// are [`Self::bytes_ready`], or the error that it meets.
    pub open spec fn bytes_value(self, tag: BytesOpTag, id: NodeId) -> Result<
        PrimitiveView,
        ASTError,
    > {
        let first = self.binding(id, 0);
        let second = self.binding(id, 1);
        let number = self.number_outcome(first, first);
        let bytes = self.read_or_kept(first).bytes_outcome(second, id);
        match tag {
            BytesOpTag::New => match number {
                Ok(size) => Ok(PrimitiveView::Bytes(Seq::new(size as nat, |i: int| 0u8))),
                Err(e) => Err(e),
            },
            BytesOpTag::Length => match self.bytes_outcome(first, id) {
                Ok(bytes) => Ok(PrimitiveView::Number(bytes.len() as usize)),
                Err(e) => Err(e),
            },
            BytesOpTag::Get => match number {
                Ok(index) => match bytes {
                    Ok(bytes) => if index < bytes.len() {
                        Ok(PrimitiveView::Number(bytes[index as int] as usize))
                    } else {
                        Err(ASTError::Custom(id, "Index out of range"))
                    },
                    Err(e) => Err(e),
                },
                Err(e) => Err(e),
            },
            BytesOpTag::Push => match number {
                Ok(value) => match bytes {
                    Ok(bytes) => if value <= 255 {
                        Ok(PrimitiveView::Bytes(bytes.push(value as u8)))
                    } else {
                        Err(ASTError::Custom(id, "Value larger than byte"))
                    },
                    Err(e) => Err(e),
                },
                Err(e) => Err(e),
            },
            _ => Err(ASTError::Custom(id, "No rule for this byte operation")),
        }
    }

    /// Putting a new primitive in the place of `node` fails: the node is
    /// gone, or there is no room.
    pub open spec fn primitive_fails(self, node: NodeId, e: ASTError) -> bool {
        if self.nodes.contains_key(node) {
            e == ASTError::Full && !self.room(1, 0)
        } else {
            e == ASTError::Custom(node, "no such node")
        }
    }

    /// Reading bytes from a binding fails: reading a primitive fails; or
    /// the primitive is a number, which is reported at `at`.
    pub open spec fn expect_bytes_fails(
        self,
        closure: NodeId,
        at: NodeId,
        fuel: nat,
        e: ASTError,
    ) -> bool {
        self.extract_fails(closure, fuel, e) || exists|read: GraphView, number: usize|
            #![trigger self.extracts(closure, fuel, read, PrimitiveView::Number(number))]
            self.extracts(closure, fuel, read, PrimitiveView::Number(number)) && e
                == ASTError::Custom(at, "Expected Bytes")
    }

    /// The byte operation `tag` at the data node `id` fails: it has no
    /// rule; or the node has another number of arguments than it takes; or
    /// reading an argument fails; or an argument has the wrong type; or
    /// the operation is not defined on the arguments (an index beyond the
    /// bytes, a value that is no byte); or the result cannot be put in the
    /// place of the node.
    pub open spec fn byte_operation_fails(
        self,
        tag: BytesOpTag,
        id: NodeId,
        fuel: nat,
        e: ASTError,
    ) -> bool {
        let first = self.binding(id, 0);
        let second = self.binding(id, 1);
        if tag.argument_count() is None {
            e == ASTError::Custom(id, "No rule for this byte operation")
        } else if tag.argument_count() != Some(self.argument_total(id)) {
            e == ASTError::Custom(id, "Incorrect argument count")
        } else if tag == BytesOpTag::Length {
            self.expect_bytes_fails(first, id, fuel, e) || exists|read: GraphView, bytes: Seq<u8>|
                #![trigger self.extracts(first, fuel, read, PrimitiveView::Bytes(bytes))]
                self.extracts(first, fuel, read, PrimitiveView::Bytes(bytes))
                    && read.primitive_fails(id, e)
        } else {
            self.extract_number_fails(first, fuel, e) || exists|read: GraphView, number: usize|
                #![trigger self.extracts(first, fuel, read, PrimitiveView::Number(number))]
                self.extracts(first, fuel, read, PrimitiveView::Number(number)) && (if tag
                    == BytesOpTag::New {
                    read.primitive_fails(id, e)
                } else {
                    read.expect_bytes_fails(second, id, fuel, e) || exists|
                        last: GraphView,
                        bytes: Seq<u8>,
                    |
                        #![trigger read.extracts(second, fuel, last, PrimitiveView::Bytes(bytes))]
                        read.extracts(second, fuel, last, PrimitiveView::Bytes(bytes)) && (
                        if tag == BytesOpTag::Get {
                            if number < bytes.len() {
                                last.primitive_fails(id, e)
                            } else {
                                e == ASTError::Custom(id, "Index out of range")
                            }
                        } else {
                            if number <= 255 {
                                last.primitive_fails(id, e)
                            } else {
                                e == ASTError::Custom(id, "Value larger than byte")
                            }
                        })
                })
        }
    }

    /// What the byte operation `tag` does at `id` where its arguments are
    /// [`Self::bytes_ready`]: it reads them and fails with the error of
    /// [`Self::bytes_value`] if there is one; else it succeeds exactly
    /// when the node is still there and there is room for the result,
    /// which then stands in the place of the node.
    pub open spec fn bytes_outcome_at(
        self,
        tag: BytesOpTag,
        id: NodeId,
        to: GraphView,
        r: Result<NodeId, ASTError>,
    ) -> bool {
        let read = self.bytes_read(tag, id);
        match self.bytes_value(tag, id) {
            Ok(value) => match r {
                Ok(result) => read.room(1, 0) && read.primitive_done(id, value, to, result),
                Err(e) => to == read && e == (if read.nodes.contains_key(id) {
                    ASTError::Full
                } else {
                    ASTError::Custom(id, "no such node")
                }) && !(read.nodes.contains_key(id) && read.room(1, 0)),
            },
            Err(e) => r == Err::<NodeId, ASTError>(e) && to == read,
        }
    }
}

impl AST {
    /// Puts a new primitive in the place of `node`. It succeeds exactly
    /// when `node` is live and there is room for one node.
    pub fn finish_primitive(&mut self, node: NodeId, primitive: Primitive) -> (r: Result<
        NodeId,
        ASTError,
    >)
        requires
            old(self).wf(),
        ensures
            final(self).wf(),
            match r {
                Ok(result) => old(self)@.nodes.contains_key(node) && !old(
                    self,
                )@.nodes.contains_key(result) && final(self)@ == old(self)@.with_node(
                    result,
                    NodeView::Primitive(primitive@),
                ).replaced(node, result),
                Err(e) => final(self)@ == old(self)@ && if old(self)@.nodes.contains_key(node) {
                    e == ASTError::Full
                } else {
                    e == ASTError::Custom(node, "no such node")
                },
            },
            r is Ok <==> old(self)@.nodes.contains_key(node) && old(self)@.room(1, 0),
            r is Err ==> old(self)@.primitive_fails(node, r->Err_0),
    {
        proof {
            self.lemma_room(1, 0);
            self.lemma_linked();
        }
        if !self.contains_node(node) {
            return Err(ASTError::Custom(node, "no such node"));
        }
        let result = self.add_node(Node::Primitive(primitive))?;
        let replaced = self.replace_by(node, result);
        assert(replaced is Ok);
        Ok(result)
    }
}

impl BytesOpTag {
    /// Reduces the arguments that the operation is strict in, computes
    /// the operation and puts the result in the place of the data node
    /// `id`. `Store` and `Pop` have no rule and fail with a domain error;
    /// so does a node with another number of arguments than the operation
    /// takes. Both leave the graph as it was.
    ///
    /// Where the arguments already are values, nothing is reduced: the
    /// operation succeeds exactly when the bindings can be let go, the
    /// values have the types that it takes, it is defined on them (an
    /// index within the bytes, a value that is a byte) and there is room
    /// for the result.
    /// It fails only as [`GraphView::byte_operation_fails`] says.
    pub fn evaluate(&self, ast: &mut AST, id: NodeId, fuel: u64) -> (r: Result<NodeId, ASTError>)
        requires
            old(ast).wf(),
        ensures
            final(ast).wf(),
            final(ast)@.next_uid >= old(ast)@.next_uid,
            r is Ok ==> final(ast)@.kind(r->Ok_0) == Kind::Value,
            r is Ok ==> old(ast)@.byte_operation(*self, id, fuel as nat, final(ast)@, r->Ok_0),
            self.argument_count() is None ==> r == Err::<NodeId, ASTError>(
                ASTError::Custom(id, "No rule for this byte operation"),
            ) && final(ast)@ == old(ast)@,
            self.argument_count() is Some && self.argument_count() != Some(
                old(ast)@.argument_total(id),
            ) ==> r == Err::<NodeId, ASTError>(ASTError::Custom(id, "Incorrect argument count"))
                && final(ast)@ == old(ast)@,
            fuel > 1 && old(ast)@.bytes_ready(*self, id, (fuel - 2) as nat) ==> old(
                ast,
            )@.bytes_outcome_at(*self, id, final(ast)@, r),
            r is Err ==> old(ast)@.byte_operation_fails(*self, id, fuel as nat, r->Err_0),
    {
        let binders = ConstructorTag::get_binders(ast, id);
        proof {
            let v = ast@;
            let count = binders@.len();
            if count > 0 {
                assert(v.child(id, Edge::Binder(0)) == Some(binders@[0]));
            }
            if count > 1 {
                assert(v.child(id, Edge::Binder(1)) == Some(binders@[1]));
            }
            if count > 2 {
                assert(v.child(id, Edge::Binder(2)) == Some(binders@[2]));
            }
            assert(count == 1 <==> v.argument_total(id) == 1);
            assert(count == 2 <==> v.argument_total(id) == 2);
        }
        match self {
            BytesOpTag::New => {
                if binders.len() != 1 {
                    return Err(ASTError::Custom(id, "Incorrect argument count"));
                }
                let size = ast.extract_number(binders[0], fuel)?;
                let ghost first = ast@;
                let r = ast.finish_primitive(id, Primitive::Bytes(zeroes(size)));
                proof {
                    if r is Ok {
                        let bytes = Seq::<u8>::empty();
                        assert(passes_two(first, first, r->Ok_0));
                        assert(passes(first, r->Ok_0, size as nat));
                        assert(carries(bytes));
                    }
                }
                r
            },
            BytesOpTag::Get => {
                if binders.len() != 2 {
                    return Err(ASTError::Custom(id, "Incorrect argument count"));
                }
                let index = ast.extract_number(binders[0], fuel)?;
                let ghost first = ast@;
                let bytes = match ast.extract_primitive_from_environment(binders[1], fuel)? {
                    Primitive::Bytes(bytes) => bytes,
                    Primitive::Number(number) => {
                        proof {
                            assert(first.extracts(
                                binders@[1],
                                fuel as nat,
                                ast@,
                                PrimitiveView::Number(number),
                            ));
                        }
                        return Err(ASTError::Custom(id, "Expected Bytes"));
                    },
                };
                let ghost second = ast@;
                proof {
                    assert(first.extracts(
                        binders@[1],
                        fuel as nat,
                        second,
                        PrimitiveView::Bytes(bytes@),
                    ));
                }
                match byte_at(&bytes, index) {
                    Ok(value) => {
                        let r = ast.finish_primitive(id, Primitive::Number(value));
                        proof {
                            if r is Ok {
                                assert(passes_two(first, second, r->Ok_0));
                                assert(passes(first, r->Ok_0, index as nat));
                                assert(carries(bytes@));
                            }
                        }
                        r
                    },
                    Err(message) => Err(ASTError::Custom(id, message)),
                }
            },
            BytesOpTag::Length => {
                if binders.len() != 1 {
                    return Err(ASTError::Custom(id, "Incorrect argument count"));
                }
                let bytes = match ast.extract_primitive_from_environment(binders[0], fuel)? {
                    Primitive::Bytes(bytes) => bytes,
                    Primitive::Number(number) => {
                        proof {
                            assert(old(ast)@.extracts(
                                binders@[0],
                                fuel as nat,
                                ast@,
                                PrimitiveView::Number(number),
                            ));
                        }
                        return Err(ASTError::Custom(id, "Expected Bytes"));
                    },
                };
                let ghost first = ast@;
                proof {
                    assert(old(ast)@.extracts(
                        binders@[0],
                        fuel as nat,
                        first,
                        PrimitiveView::Bytes(bytes@),
                    ));
                }
                let count: usize = bytes.len();
                let r = ast.finish_primitive(id, Primitive::Number(count));
                proof {
                    if r is Ok {
                        assert(passes_two(first, first, r->Ok_0));
                        assert(passes(first, r->Ok_0, count as nat));
                        assert(carries(bytes@));
                    }
                }
                r
            },
            BytesOpTag::Push => {
                if binders.len() != 2 {
                    return Err(ASTError::Custom(id, "Incorrect argument count"));
                }
                let value = ast.extract_number(binders[0], fuel)?;
                let ghost first = ast@;
                let bytes = match ast.extract_primitive_from_environment(binders[1], fuel)? {
                    Primitive::Bytes(bytes) => bytes,
                    Primitive::Number(number) => {
                        proof {
                            assert(first.extracts(
                                binders@[1],
                                fuel as nat,
                                ast@,
                                PrimitiveView::Number(number),
                            ));
                        }
                        return Err(ASTError::Custom(id, "Expected Bytes"));
                    },
                };
                let ghost second = ast@;
                let ghost shorter = bytes@;
                proof {
                    assert(first.extracts(
                        binders@[1],
                        fuel as nat,
                        second,
                        PrimitiveView::Bytes(shorter),
                    ));
                }
                match with_byte(bytes, value) {
                    Ok(longer) => {
                        let r = ast.finish_primitive(id, Primitive::Bytes(longer));
                        proof {
                            if r is Ok {
                                assert(passes_two(first, second, r->Ok_0));
                                assert(passes(first, r->Ok_0, value as nat));
                                assert(carries(shorter));
                            }
                        }
                        r
                    },
                    Err(message) => Err(ASTError::Custom(id, message)),
                }
            },
            _ => Err(ASTError::Custom(id, "No rule for this byte operation")),
        }
    }
}

} // verus!
