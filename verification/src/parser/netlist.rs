//! The parts and nets that an export lists, as the parser hands them on.
use vstd::prelude::*;

use crate::table::Table;
use crate::text::texts;

verus! {

/// The text of an optional string.
pub open spec fn opt_text(o: Option<String>) -> Option<Seq<char>> {
    match o {
        Some(s) => Some(s@),
        None => None,
    }
}

/// The contents of a property table.
pub open spec fn property_texts(m: Map<Seq<char>, Option<String>>) -> Map<Seq<char>, Option<Seq<char>>> {
    m.map_values(|v: Option<String>| opt_text(v))
}

#[derive(Debug)]
pub struct Netlist {
    pub components: Vec<Component>,
    pub nets: Vec<Net>,
    /// The sheet paths that the export's design header declares.
    pub sheets: Vec<String>,
}

#[verifier::ext_equal]
pub struct NetlistModel {
    pub components: Seq<ComponentModel>,
    pub nets: Seq<NetModel>,
    pub sheets: Seq<Seq<char>>,
}

impl View for Netlist {
    type V = NetlistModel;

    open spec fn view(&self) -> NetlistModel {
        NetlistModel {
            components: component_models(self.components@),
            nets: net_models(self.nets@),
            sheets: texts(self.sheets@),
        }
    }
}

#[derive(Debug)]
pub struct Component {
    pub refdes: String,
    pub value: String,
    pub footprint: Option<String>,
    pub description: Option<String>,
    pub sheet: Option<String>,
    pub properties: Table<Option<String>>,
    pub pins: Vec<Pin>,
}

#[verifier::ext_equal]
pub struct ComponentModel {
    pub refdes: Seq<char>,
    pub value: Seq<char>,
    pub footprint: Option<Seq<char>>,
    pub description: Option<Seq<char>>,
    pub sheet: Option<Seq<char>>,
    pub properties: Map<Seq<char>, Option<Seq<char>>>,
    pub pins: Seq<PinModel>,
}

impl View for Component {
    type V = ComponentModel;

    open spec fn view(&self) -> ComponentModel {
        ComponentModel {
            refdes: self.refdes@,
            value: self.value@,
            footprint: opt_text(self.footprint),
            description: opt_text(self.description),
            sheet: opt_text(self.sheet),
            properties: property_texts(self.properties@),
            pins: pin_models(self.pins@),
        }
    }
}

pub open spec fn component_models(v: Seq<Component>) -> Seq<ComponentModel> {
    v.map_values(|c: Component| c@)
}

impl Component {
    pub fn new() -> (r: Component)
        ensures
            r@ == (ComponentModel {
                refdes: Seq::empty(),
                value: Seq::empty(),
                footprint: None,
                description: None,
                sheet: None,
                properties: Map::empty(),
                pins: Seq::empty(),
            }),
    {
        let r = Component {
            refdes: String::new(),
            value: String::new(),
            footprint: None,
            description: None,
            sheet: None,
            properties: Table::new(),
            pins: Vec::new(),
        };
        assert(property_texts(r.properties@) =~= Map::empty());
        assert(pin_models(r.pins@) =~= Seq::empty());
        r
    }
}

#[derive(Debug)]
pub struct Pin {
    pub number: String,
    pub name: Option<String>,
    pub pin_type: Option<String>,
    pub net: Option<usize>,
}

#[verifier::ext_equal]
pub struct PinModel {
    pub number: Seq<char>,
    pub name: Option<Seq<char>>,
    pub pin_type: Option<Seq<char>>,
    pub net: Option<usize>,
}

impl View for Pin {
    type V = PinModel;

    open spec fn view(&self) -> PinModel {
        PinModel {
            number: self.number@,
            name: opt_text(self.name),
            pin_type: opt_text(self.pin_type),
            net: self.net,
        }
    }
}

pub open spec fn pin_models(v: Seq<Pin>) -> Seq<PinModel> {
    v.map_values(|p: Pin| p@)
}

impl Pin {
    pub fn new() -> (r: Pin)
        ensures
            r@ == (PinModel { number: Seq::empty(), name: None, pin_type: None, net: None }),
    {
        Pin { number: String::new(), name: None, pin_type: None, net: None }
    }
}

#[derive(Debug)]
pub struct Net {
    pub code: usize,
    pub name: String,
}

#[verifier::ext_equal]
pub struct NetModel {
    pub code: usize,
    pub name: Seq<char>,
}

impl View for Net {
    type V = NetModel;

    open spec fn view(&self) -> NetModel {
        NetModel { code: self.code, name: self.name@ }
    }
}

pub open spec fn net_models(v: Seq<Net>) -> Seq<NetModel> {
    v.map_values(|n: Net| n@)
}

} // verus!
