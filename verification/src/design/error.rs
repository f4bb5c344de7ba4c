//! What a question about a design can be refused for.
use vstd::prelude::*;

verus! {

/// A question that names nothing in the design.
#[derive(Debug)]
pub enum QueryError {
    /// No component to show under this designator.
    NoSuchRefdes(String),
    /// No component whose neighbours could be listed under this designator.
    NoSuchComponent(String),
    /// No net with this name or code.
    NoSuchNet(String),
    /// No net with this name to walk from.
    NoNetCalled(String),
    /// No pin with this name.
    NoSuchPin(String),
    /// The pin is on no net.
    PinHasNoNet(String),
}

/// What an error is about.
pub enum Refusal {
    Refdes(Seq<char>),
    Component(Seq<char>),
    Net(Seq<char>),
    NetCalled(Seq<char>),
    Pin(Seq<char>),
    Unconnected(Seq<char>),
}

impl View for QueryError {
    type V = Refusal;

    open spec fn view(&self) -> Refusal {
        match self {
            QueryError::NoSuchRefdes(s) => Refusal::Refdes(s@),
            QueryError::NoSuchComponent(s) => Refusal::Component(s@),
            QueryError::NoSuchNet(s) => Refusal::Net(s@),
            QueryError::NoNetCalled(s) => Refusal::NetCalled(s@),
            QueryError::NoSuchPin(s) => Refusal::Pin(s@),
            QueryError::PinHasNoNet(s) => Refusal::Unconnected(s@),
        }
    }
}

/// The words of a refusal.
pub open spec fn refusal_text(e: Refusal) -> Seq<char> {
    match e {
        Refusal::Refdes(s) => "Refdes "@ + s + " not found in component map"@,
        Refusal::Component(s) => "component "@ + s + " not found"@,
        Refusal::Net(s) => "no net named or coded '"@ + s + "'"@,
        Refusal::NetCalled(s) => "no net called '"@ + s + "'"@,
        Refusal::Pin(s) => "no pin named '"@ + s + "'"@,
        Refusal::Unconnected(s) => "pin '"@ + s + "' has no net"@,
    }
}

fn framed(before: &str, s: &str, after: &str) -> (r: String)
    ensures
        r@ == before@ + s@ + after@,
{
    let mut out = before.to_owned();
    out.append(s);
    out.append(after);
    out
}

impl QueryError {
    /// The error in words.
    pub fn message(&self) -> (r: String)
        ensures
            r@ == refusal_text(self@),
    {
        match self {
            QueryError::NoSuchRefdes(s) => framed(
                "Refdes ",
                s.as_str(),
                " not found in component map",
            ),
            QueryError::NoSuchComponent(s) => framed("component ", s.as_str(), " not found"),
            QueryError::NoSuchNet(s) => framed("no net named or coded '", s.as_str(), "'"),
            QueryError::NoNetCalled(s) => framed("no net called '", s.as_str(), "'"),
            QueryError::NoSuchPin(s) => framed("no pin named '", s.as_str(), "'"),
            QueryError::PinHasNoNet(s) => framed("pin '", s.as_str(), "' has no net"),
        }
    }
}

} // verus!
