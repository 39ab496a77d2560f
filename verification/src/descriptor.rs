//! The element descriptor model: the application-side description of one UI
//! element (identity, kind, variant fields) and its well-formedness.

use vstd::prelude::*;

verus! {

/// Which payload bytes the transport encoding can carry: bytes below the
/// space character (the terminator among them) are not representable and
/// make a submission fail with an encoding error.
pub open spec fn text_wf(s: Seq<u8>) -> bool {
    forall|i: int| 0 <= i < s.len() ==> s[i] >= 32
}

/// One element kind with its variant fields. The renderer defines further
/// kinds; the bridge models the ones it submits.
#[derive(Debug, PartialEq)]
#[verifier::ext_equal]
pub enum ElementKind {
    /// A plain tree node; `root` marks the single tree root.
    Node { root: bool },
    /// A run of unformatted text, held as UTF-8 bytes owned by the
    /// application side.
    UnformattedText { text: Vec<u8> },
}

/// The description of one UI element, identified by an application-assigned
/// non-negative id unique among live elements.
#[derive(Debug, PartialEq)]
#[verifier::ext_equal]
pub struct ElementDescriptor {
    pub id: u32,
    pub kind: ElementKind,
}

/// The mathematical shape of an element kind.
#[verifier::ext_equal]
pub enum KindModel {
    Node { root: bool },
    UnformattedText { text: Seq<u8> },
}

/// The mathematical shape of a descriptor.
#[verifier::ext_equal]
pub struct DescriptorModel {
    pub id: u32,
    pub kind: KindModel,
}

impl DescriptorModel {
    /// A descriptor is well formed when its content is representable in
    /// the transport encoding.
    pub open spec fn wf(&self) -> bool {
        match self.kind {
            KindModel::Node { root: _ } => true,
            KindModel::UnformattedText { text } => text_wf(text),
        }
    }
}

impl View for ElementKind {
    type V = KindModel;

    open spec fn view(&self) -> KindModel {
        match self {
            ElementKind::Node { root } => KindModel::Node { root: *root },
            ElementKind::UnformattedText { text } => KindModel::UnformattedText { text: text@ },
        }
    }
}

impl View for ElementDescriptor {
    type V = DescriptorModel;

    open spec fn view(&self) -> DescriptorModel {
        DescriptorModel { id: self.id, kind: self.kind@ }
    }
}

impl ElementDescriptor {
    /// A descriptor is well formed when its model is.
    pub open spec fn wf(&self) -> bool {
        self@.wf()
    }

    /// Describe a plain node.
    pub fn node(id: u32, root: bool) -> (d: ElementDescriptor)
        ensures
            d@ == (DescriptorModel { id, kind: KindModel::Node { root } }),
            d.wf(),
    {
        ElementDescriptor { id, kind: ElementKind::Node { root } }
    }

    /// Describe an unformatted-text element.
    pub fn unformatted_text(id: u32, text: Vec<u8>) -> (d: ElementDescriptor)
        ensures
            d@ == (DescriptorModel { id, kind: KindModel::UnformattedText { text: text@ } }),
            d.wf() == text_wf(text@),
    {
        ElementDescriptor { id, kind: ElementKind::UnformattedText { text } }
    }
}

} // verus!
