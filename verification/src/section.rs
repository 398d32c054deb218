//! Sections: address-tagged runs of 32-bit words extracted from an image.

use vstd::prelude::*;

verus! {

/// What a section holds: executable code, initialized data, or zero-filled
/// data with no stored bytes.
#[derive(Clone, Copy, Debug, PartialEq, Eq, Structural)]
pub enum SectionKind {
    Text,
    Data,
    Bss,
}

/// One section of an image: the load address of word 0, the kind tag, and
/// the decoded (and, for code, normalized) 32-bit words.
#[derive(Debug)]
pub struct Section {
    pub address: u32,
    pub kind: SectionKind,
    pub vals: Vec<u32>,
}

/// The mathematical content of a section.
pub ghost struct SpecSection {
    pub address: u32,
    pub kind: SectionKind,
    pub vals: Seq<u32>,
}

impl View for Section {
    type V = SpecSection;

    open spec fn view(&self) -> SpecSection {
        SpecSection { address: self.address, kind: self.kind, vals: self.vals@ }
    }
}

/// The contents of a list of sections.
pub open spec fn sections_view(s: Seq<Section>) -> Seq<SpecSection> {
    s.map_values(|sec: Section| sec@)
}

} // verus!
