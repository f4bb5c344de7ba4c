//! Parts and nets as the keyword parser hands them on.
use vstd::prelude::*;

use crate::parser::netlist::opt_text;
use crate::table::Table;

verus! {

#[derive(Debug)]
pub struct NetList {
    pub components: Vec<Component>,
    pub nets: Vec<Net>,
}

#[derive(Debug)]
pub struct Component {
    pub refdes: String,
    pub value: String,
    pub footprint: String,
    pub properties: Table<String>,
    pub pins: Vec<Pin>,
}

#[derive(Debug)]
pub struct Pin {
    pub number: String,
    pub name: Option<String>,
    /// The code of the net that the pin is on.
    pub net: Option<usize>,
}

#[derive(Debug)]
pub struct Net {
    pub code: usize,
    pub name: String,
}

#[verifier::ext_equal]
pub struct PartModel {
    pub refdes: Seq<char>,
    pub value: Seq<char>,
    pub footprint: Seq<char>,
    pub properties: Map<Seq<char>, String>,
    pub pins: Seq<TerminalModel>,
}

#[verifier::ext_equal]
pub struct TerminalModel {
    pub number: Seq<char>,
    pub name: Option<Seq<char>>,
    pub net: Option<usize>,
}

#[verifier::ext_equal]
pub struct WireModel {
    pub code: usize,
    pub name: Seq<char>,
}

impl View for Component {
    type V = PartModel;

    open spec fn view(&self) -> PartModel {
        PartModel {
            refdes: self.refdes@,
            value: self.value@,
            footprint: self.footprint@,
            properties: self.properties@,
            pins: terminals(self.pins@),
        }
    }
}

impl View for Pin {
    type V = TerminalModel;

    open spec fn view(&self) -> TerminalModel {
        TerminalModel { number: self.number@, name: opt_text(self.name), net: self.net }
    }
}

impl View for Net {
    type V = WireModel;

    open spec fn view(&self) -> WireModel {
        WireModel { code: self.code, name: self.name@ }
    }
}

pub open spec fn parts(v: Seq<Component>) -> Seq<PartModel> {
    v.map_values(|c: Component| c@)
}

pub open spec fn terminals(v: Seq<Pin>) -> Seq<TerminalModel> {
    v.map_values(|p: Pin| p@)
}

pub open spec fn wires(v: Seq<Net>) -> Seq<WireModel> {
    v.map_values(|n: Net| n@)
}

impl Component {
    pub fn new() -> (r: Component)
        ensures
            r@ == (PartModel {
                refdes: Seq::empty(),
                value: Seq::empty(),
                footprint: Seq::empty(),
                properties: Map::empty(),
                pins: Seq::empty(),
            }),
    {
        let r = Component {
            refdes: String::new(),
            value: String::new(),
            footprint: String::new(),
            properties: Table::new(),
            pins: Vec::new(),
        };
        assert(terminals(r.pins@) =~= Seq::empty());
        r
    }
}

impl Pin {
    pub fn new() -> (r: Pin)
        ensures
            r@ == (TerminalModel { number: Seq::empty(), name: None, net: None }),
    {
        Pin { number: String::new(), name: None, net: None }
    }
}

} // verus!
