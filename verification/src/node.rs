//! A node of a workflow graph: its inputs and outputs, the connections that
//! can be made to it, and whether it is running.

use vstd::prelude::*;
use vstd::std_specs::cmp::PartialEqSpecImpl;

verus! {

/// What an input takes or an output gives: one value of a kind, or a list
/// of values of that kind.
#[derive(Debug)]
pub enum ValueType<P> {
    Single(P),
    Many(P),
}

impl<P: Copy> Clone for ValueType<P> {
    fn clone(&self) -> (copy: Self)
        ensures
            copy == *self,
    {
        *self
    }
}

impl<P: Copy> Copy for ValueType<P> {

}

/// A kind of value that is drawn in a color of its own.
pub trait Colored {
    fn color(&self) -> String;
}

impl<P: Colored> ValueType<P> {
    /// The color of the kind of value, for one value and for a list alike.
    pub fn color(&self) -> String {
        self.kind().color()
    }
}

impl<P> ValueType<P> {
    /// The kind of the value, or of the values of the list.
    pub open spec fn kind_of(self) -> P {
        match self {
            ValueType::Single(kind) => kind,
            ValueType::Many(kind) => kind,
        }
    }

    /// The kind of the value, or of the values of the list.
    pub fn kind(&self) -> (kind: &P)
        ensures
            *kind == self.kind_of(),
    {
        match self {
            ValueType::Single(kind) => kind,
            ValueType::Many(kind) => kind,
        }
    }
}

/// Which part of an input a connection ends at.
#[derive(Clone, Copy, Debug, PartialEq, Eq, Structural)]
pub enum ConnectionType {
    /// The input as a whole.
    Single,
    /// One element of a list input.
    Element(usize),
}

/// A place on a node where an edge can end.
#[derive(Clone, Copy, Debug, PartialEq, Eq, Structural)]
pub struct Connection {
    pub index: usize,
    pub ty: ConnectionType,
}

/// An input of a node: its type, and how many values it holds.
#[derive(Debug)]
pub struct NodeInput<P> {
    pub ty: ValueType<P>,
    pub values: usize,
}

impl<P: Copy> Clone for NodeInput<P> {
    fn clone(&self) -> (copy: Self)
        ensures
            copy == *self,
    {
        *self
    }
}

impl<P: Copy> Copy for NodeInput<P> {

}

/// An output of a node.
#[derive(Debug)]
pub struct NodeOutput<P> {
    pub ty: ValueType<P>,
}

impl<P: Copy> Clone for NodeOutput<P> {
    fn clone(&self) -> (copy: Self)
        ensures
            copy == *self,
    {
        *self
    }
}

impl<P: Copy> Copy for NodeOutput<P> {

}

/// A node of the graph.
#[derive(Debug)]
pub struct Node<P> {
    pub id: u32,
    pub running: bool,
    pub queued: bool,
    pub error: Option<String>,
    pub inputs: Vec<NodeInput<P>>,
    pub outputs: Vec<NodeOutput<P>>,
    pub description: String,
}

impl<P> PartialEq for Node<P> {
    /// Two nodes are the same node where they have the same identifier.
    fn eq(&self, other: &Self) -> (r: bool) {
        self.id == other.id
    }
}

impl<P> PartialEqSpecImpl for Node<P> {
    open spec fn obeys_eq_spec() -> bool {
        true
    }

    open spec fn eq_spec(&self, other: &Self) -> bool {
        self.id == other.id
    }
}

/// The whole-input connections of the first `n` inputs: one for each input
/// that takes a single value, in order.
pub open spec fn single_connections<P>(inputs: Seq<NodeInput<P>>, n: int) -> Seq<Connection>
    decreases n,
{
    if n <= 0 {
        Seq::empty()
    } else {
        single_connections(inputs, n - 1) + if inputs[n - 1].ty is Single {
            seq![Connection { index: (n - 1) as usize, ty: ConnectionType::Single }]
        } else {
            Seq::empty()
        }
    }
}

/// The connections to the first `count` elements of input `index`.
pub open spec fn elements_of(index: usize, count: int) -> Seq<Connection> {
    Seq::new(
        count as nat,
        |inner: int| Connection { index, ty: ConnectionType::Element(inner as usize) },
    )
}

/// The element connections of the first `n` inputs: one for each value of
/// each input that takes a list, in order.
pub open spec fn element_connections<P>(inputs: Seq<NodeInput<P>>, n: int) -> Seq<Connection>
    decreases n,
{
    if n <= 0 {
        Seq::empty()
    } else {
        element_connections(inputs, n - 1) + if inputs[n - 1].ty is Many {
            elements_of((n - 1) as usize, inputs[n - 1].values as int)
        } else {
            Seq::empty()
        }
    }
}

/// Number of values that the list inputs among the first `n` inputs hold.
pub open spec fn element_total<P>(inputs: Seq<NodeInput<P>>, n: int) -> int
    decreases n,
{
    if n <= 0 {
        0
    } else {
        element_total(inputs, n - 1) + if inputs[n - 1].ty is Many {
            inputs[n - 1].values as int
        } else {
            0
        }
    }
}

/// The element total only grows with the inputs counted.
pub proof fn lemma_element_total_grows<P>(inputs: Seq<NodeInput<P>>, i: int, n: int)
    requires
        0 <= i <= n,
    ensures
        0 <= element_total(inputs, i) <= element_total(inputs, n),
    decreases n,
{
    if i < n {
        lemma_element_total_grows(inputs, i, n - 1);
    } else if n > 0 {
        lemma_element_total_grows(inputs, i - 1, n - 1);
    }
}

/// There are as many element connections as list inputs hold values.
pub proof fn lemma_element_connections_len<P>(inputs: Seq<NodeInput<P>>, n: int)
    requires
        0 <= n,
    ensures
        element_connections(inputs, n).len() == element_total(inputs, n),
    decreases n,
{
    if n > 0 {
        lemma_element_connections_len(inputs, n - 1);
    }
}

/// The color to draw, where a color is known, and black where none is.
pub fn color_or_black(color: Option<String>) -> (s: String)
    ensures
        s@ == match color {
            Some(c) => c@,
            None => "black"@,
        },
{
    match color {
        Some(c) => c,
        None => "black".to_owned(),
    }
}

/// The node that has the focus after a click on `node`: the node itself, or
/// none where it had the focus already.
pub fn focus_after_click(focused: Option<u32>, node: u32) -> (next: Option<u32>)
    ensures
        next == if focused == Some(node) {
            None::<u32>
        } else {
            Some(node)
        },
{
    match focused {
        Some(current) => {
            if current == node {
                None
            } else {
                Some(node)
            }
        },
        None => Some(node),
    }
}

impl<P: Copy> Node<P> {
    /// The type of the input that a connection ends at.
    pub open spec fn input_type_of(&self, index: Connection) -> Option<ValueType<P>> {
        match index.ty {
            ConnectionType::Single => if index.index < self.inputs@.len() {
                Some(self.inputs@[index.index as int].ty)
            } else {
                None
            },
            ConnectionType::Element(_) => self.element_type_of(index.index),
        }
    }

    /// The type of one element of input `index`.
    pub open spec fn element_type_of(&self, index: usize) -> Option<ValueType<P>> {
        if index < self.inputs@.len() {
            match self.inputs@[index as int].ty {
                ValueType::Many(kind) => Some(ValueType::Single(kind)),
                ValueType::Single(_) => None,
            }
        } else {
            None
        }
    }

    /// Every place where an edge can end at the node: the inputs that take a
    /// single value, then the elements of the inputs that take a list.
    pub fn input_connections(&self) -> (connections: Vec<Connection>)
        ensures
            connections@ == single_connections(self.inputs@, self.inputs@.len() as int)
                + element_connections(self.inputs@, self.inputs@.len() as int),
    {
        let n = self.inputs.len();
        let mut connections: Vec<Connection> = Vec::new();
        let mut index: usize = 0;
        while index < n
            invariant
                index <= n,
                n == self.inputs@.len(),
                connections@ == single_connections(self.inputs@, index as int),
            decreases n - index,
        {
            match self.inputs[index].ty {
                ValueType::Single(_) => {
                    connections.push(Connection { index, ty: ConnectionType::Single });
                },
                ValueType::Many(_) => {},
            }
            index = index + 1;
        }
        let ghost singles = connections@;
        index = 0;
        assert(connections@ =~= singles + element_connections(self.inputs@, 0));
        while index < n
            invariant
                index <= n,
                n == self.inputs@.len(),
                connections@ == singles + element_connections(self.inputs@, index as int),
            decreases n - index,
        {
            let ghost before = connections@;
            match self.inputs[index].ty {
                ValueType::Many(_) => {
                    let count = self.inputs[index].values;
                    let mut inner: usize = 0;
                    assert(connections@ =~= before + elements_of(index, 0));
                    while inner < count
                        invariant
                            inner <= count,
                            connections@ == before + elements_of(index, inner as int),
                        decreases count - inner,
                    {
                        connections.push(Connection { index, ty: ConnectionType::Element(inner) });
                        assert(connections@ =~= before + elements_of(index, inner + 1));
                        inner = inner + 1;
                    }
                    assert(connections@ =~= singles + element_connections(
                        self.inputs@,
                        index + 1,
                    ));
                },
                ValueType::Single(_) => {
                    assert(connections@ =~= singles + element_connections(
                        self.inputs@,
                        index + 1,
                    ));
                },
            }
            index = index + 1;
        }
        connections
    }

    /// Number of places where an edge can end, counting each list input
    /// itself and each of its values.
    pub fn input_count(&self) -> (count: usize)
        requires
            self.inputs@.len() + element_total(self.inputs@, self.inputs@.len() as int)
                <= usize::MAX,
        ensures
            count == self.inputs@.len() + element_total(self.inputs@, self.inputs@.len() as int),
    {
        let n = self.inputs.len();
        let mut count: usize = n;
        let mut index: usize = 0;
        while index < n
            invariant
                index <= n,
                n == self.inputs@.len(),
                n + element_total(self.inputs@, n as int) <= usize::MAX,
                count == n + element_total(self.inputs@, index as int),
            decreases n - index,
        {
            proof {
                lemma_element_total_grows(self.inputs@, index + 1, n as int);
            }
            match self.inputs[index].ty {
                ValueType::Many(_) => {
                    count = count + self.inputs[index].values;
                },
                ValueType::Single(_) => {},
            }
            index = index + 1;
        }
        count
    }

    /// The type of the input that a connection ends at, if there is such an
    /// input: the input's own type for the input as a whole, the type of one
    /// element for an element of a list.
    pub fn input_type(&self, index: Connection) -> (ty: Option<ValueType<P>>)
        ensures
            ty == self.input_type_of(index),
    {
        match index.ty {
            ConnectionType::Single => {
                if index.index < self.inputs.len() {
                    Some(self.inputs[index.index].ty)
                } else {
                    None
                }
            },
            ConnectionType::Element(_) => self.element_input_type(index.index),
        }
    }

    /// The type of one element of input `index`, if that input takes a list.
    pub fn element_input_type(&self, index: usize) -> (ty: Option<ValueType<P>>)
        ensures
            ty == self.element_type_of(index),
    {
        if index < self.inputs.len() {
            match self.inputs[index].ty {
                ValueType::Many(kind) => Some(ValueType::Single(kind)),
                ValueType::Single(_) => None,
            }
        } else {
            None
        }
    }

    /// The type of output `index`, if there is one.
    pub fn output_type(&self, index: usize) -> (ty: Option<ValueType<P>>)
        ensures
            ty == if index < self.outputs@.len() {
                Some(self.outputs@[index as int].ty)
            } else {
                None
            },
    {
        if index < self.outputs.len() {
            Some(self.outputs[index].ty)
        } else {
            None
        }
    }

    /// What the node does, for its user.
    pub fn help_text(&self) -> (text: String)
        ensures
            text@ == self.description@,
    {
        self.description.clone()
    }

    /// The node was asked to run: it is queued and running.
    pub fn begin_run(&mut self)
        ensures
            final(self).running,
            final(self).queued,
            final(self).id == old(self).id,
            final(self).error == old(self).error,
            final(self).inputs == old(self).inputs,
            final(self).outputs == old(self).outputs,
            final(self).description == old(self).description,
    {
        self.running = true;
        self.queued = true;
    }

    /// The run ended: with `None` where it was given up, else with its
    /// result. A failure is kept as the node's error; in every case the node
    /// is neither running nor queued any more.
    pub fn finish_run(&mut self, outcome: Option<Result<(), String>>)
        ensures
            !final(self).running,
            !final(self).queued,
            final(self).error == match outcome {
                Some(Err(message)) => Some(message),
                _ => old(self).error,
            },
            final(self).id == old(self).id,
            final(self).inputs == old(self).inputs,
            final(self).outputs == old(self).outputs,
            final(self).description == old(self).description,
    {
        match outcome {
            Some(Err(message)) => {
                self.error = Some(message);
            },
            _ => {},
        }
        self.running = false;
        self.queued = false;
    }
}

impl<P: Copy + Colored> Node<P> {
    /// The color of the input that a connection ends at; black where there
    /// is no such input.
    pub fn input_color(&self, index: Connection) -> (color: String)
        ensures
            self.input_type_of(index) is None ==> color@ == "black"@,
    {
        let known = match self.input_type(index) {
            Some(ty) => Some(ty.color()),
            None => None,
        };
        color_or_black(known)
    }

    /// The color of output `index`; black where there is no such output.
    pub fn output_color(&self, index: usize) -> (color: String)
        ensures
            index >= self.outputs@.len() ==> color@ == "black"@,
    {
        let known = match self.output_type(index) {
            Some(ty) => Some(ty.color()),
            None => None,
        };
        color_or_black(known)
    }
}

} // verus!
