//! What can be wrong with a netlist export.
use vstd::prelude::*;

verus! {

#[derive(Debug, Clone, Copy, PartialEq, Eq, Structural)]
pub enum ParseError {
    /// The text ends in the middle of a quoted string.
    UnterminatedString,
    /// A node does not begin with a left parenthesis.
    Misaligned,
    /// Two left parentheses follow each other.
    DoubleParen,
    /// A node without a key.
    EmptyNode,
    /// A list stands where an atom is wanted.
    NotAtom,
    /// A parenthesis stands where a text is wanted.
    Parenthesis,
    /// An atom stands where a list is wanted.
    NotList,
    /// The first element of a list is not an atom.
    KeyNotAtom,
    /// The first element of a list is not a symbol.
    KeyNotSymbol,
    /// A list without elements.
    ShortList,
    /// A value node with other than two elements.
    NotTwoElements,
    /// The second element of a value node is not an atom.
    ValueNotAtom,
    /// The second element of a value node is not a quoted string.
    ValueNotQuoted,
    /// A leaf other than the wanted one.
    OtherLeaf,
    /// Not exactly one child of the wanted key.
    NotOneChild,
    /// More than one child of the wanted key.
    ManyChildren,
    /// The node is not a component.
    NotComponent,
    /// The node is not a net.
    NotNet,
    /// Not exactly one library part for a component.
    LibpartNotUnique,
    /// A net code that is not a number.
    BadNetCode,
}

/// Why no netlist can be made of an export, `E` being what can be wrong with one node.
#[derive(Debug, PartialEq)]
pub enum NetlistError<E> {
    /// The export, a component or the head of a net cannot be read.
    Unreadable(E),
    /// A node on a net cannot be read.
    NodeUnreadable { why: E, net: String },
    /// A net names a component that the export does not list.
    UnknownComponent { refdes: String, net: String },
    /// A net names a pin that its component does not have.
    UnknownPin { refdes: String, pin: String, net: String },
}

/// An error as the texts it carries.
pub enum NetlistFault<E> {
    Unreadable(E),
    NodeUnreadable { why: E, net: Seq<char> },
    UnknownComponent { refdes: Seq<char>, net: Seq<char> },
    UnknownPin { refdes: Seq<char>, pin: Seq<char>, net: Seq<char> },
}

impl<E> View for NetlistError<E> {
    type V = NetlistFault<E>;

    open spec fn view(&self) -> NetlistFault<E> {
        match self {
            NetlistError::Unreadable(e) => NetlistFault::Unreadable(*e),
            NetlistError::NodeUnreadable { why, net } => NetlistFault::NodeUnreadable {
                why: *why,
                net: net@,
            },
            NetlistError::UnknownComponent { refdes, net } => NetlistFault::UnknownComponent {
                refdes: refdes@,
                net: net@,
            },
            NetlistError::UnknownPin { refdes, pin, net } => NetlistFault::UnknownPin {
                refdes: refdes@,
                pin: pin@,
                net: net@,
            },
        }
    }
}

} // verus!
