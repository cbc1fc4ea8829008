//! The payload of each node: document, doctype, comment, text, element or
//! processing instruction.

use vstd::prelude::*;
use crate::attrs::{ElementAttributeTrigger, attr_views};
use crate::qualname::QualName;

verus! {

/// The root of a document.
#[derive(Debug, Clone, Copy, PartialEq, Eq, Default, Structural)]
pub struct DocumentInterface;

/// The `<!doctype ...>` preamble.
pub struct DoctypeInterface {
    pub name: String,
    pub public_id: String,
    pub system_id: String,
}

impl DoctypeInterface {
    pub fn new(name: String, public_id: String, system_id: String) -> (r: DoctypeInterface)
        ensures
            r.name == name,
            r.public_id == public_id,
            r.system_id == system_id,
    {
        DoctypeInterface { name, public_id, system_id }
    }
}

/// A comment, `<!-- ... -->`.
pub struct CommentInterface {
    pub contents: String,
}

impl CommentInterface {
    pub fn new(contents: String) -> (r: CommentInterface)
        ensures
            r.contents == contents,
    {
        CommentInterface { contents }
    }
}

/// A run of character data.
pub struct TextInterface {
    pub contents: String,
}

impl TextInterface {
    pub fn new(contents: String) -> (r: TextInterface)
        ensures
            r.contents == contents,
    {
        TextInterface { contents }
    }

    /// Appends `more` to the contents.
    pub fn push_str(&mut self, more: &str)
        ensures
            final(self).contents@ == old(self).contents@ + more@,
    {
        self.contents.append(more);
    }
}

/// An element: its name, its attributes and two flags the tree builder sets.
pub struct ElementInterface {
    pub name: QualName,
    pub attrs: ElementAttributeTrigger,
    pub template: bool,
    pub mathml_annotation_xml_integration_point: bool,
}

impl ElementInterface {
    /// An element with the attributes `attrs`, kept in the order given.
    pub fn new(
        name: QualName,
        attrs: Vec<(QualName, String)>,
        template: bool,
        mathml_annotation_xml_integration_point: bool,
    ) -> (r: ElementInterface)
        ensures
            r.name == name,
            r.attrs.wf(),
            r.attrs@ == attr_views(attrs@),
            r.template == template,
            r.mathml_annotation_xml_integration_point == mathml_annotation_xml_integration_point,
    {
        ElementInterface {
            name,
            attrs: ElementAttributeTrigger::new(attrs),
            template,
            mathml_annotation_xml_integration_point,
        }
    }
}

/// A processing instruction, `<?target data?>`.
pub struct ProcessingInstructionInterface {
    pub data: String,
    pub target: String,
}

impl ProcessingInstructionInterface {
    pub fn new(data: String, target: String) -> (r: ProcessingInstructionInterface)
        ensures
            r.data == data,
            r.target == target,
    {
        ProcessingInstructionInterface { data, target }
    }
}

/// The payload of a node: exactly one of the six kinds.
pub enum Interface {
    Document(DocumentInterface),
    Doctype(DoctypeInterface),
    Comment(CommentInterface),
    Text(TextInterface),
    Element(ElementInterface),
    ProcessingInstruction(ProcessingInstructionInterface),
}

impl Interface {
    /// Element payloads keep their attribute caches in step.
    pub open spec fn wf(&self) -> bool {
        match self {
            Interface::Element(e) => e.attrs.wf(),
            _ => true,
        }
    }

    pub fn is_document(&self) -> (r: bool)
        ensures
            r == self is Document,
    {
        matches!(self, Interface::Document(_))
    }

    pub fn is_doctype(&self) -> (r: bool)
        ensures
            r == self is Doctype,
    {
        matches!(self, Interface::Doctype(_))
    }

    pub fn is_comment(&self) -> (r: bool)
        ensures
            r == self is Comment,
    {
        matches!(self, Interface::Comment(_))
    }

    pub fn is_text(&self) -> (r: bool)
        ensures
            r == self is Text,
    {
        matches!(self, Interface::Text(_))
    }

    pub fn is_element(&self) -> (r: bool)
        ensures
            r == self is Element,
    {
        matches!(self, Interface::Element(_))
    }

    pub fn is_processing_instruction(&self) -> (r: bool)
        ensures
            r == self is ProcessingInstruction,
    {
        matches!(self, Interface::ProcessingInstruction(_))
    }

    pub fn doctype(&self) -> (r: Option<&DoctypeInterface>)
        ensures
            r matches Some(d) ==> self == Interface::Doctype(*d),
            r is None <==> !(self is Doctype),
    {
        match self {
            Interface::Doctype(d) => Some(d),
            _ => None,
        }
    }

    pub fn comment(&self) -> (r: Option<&CommentInterface>)
        ensures
            r matches Some(c) ==> self == Interface::Comment(*c),
            r is None <==> !(self is Comment),
    {
        match self {
            Interface::Comment(c) => Some(c),
            _ => None,
        }
    }

    pub fn text(&self) -> (r: Option<&TextInterface>)
        ensures
            r matches Some(t) ==> self == Interface::Text(*t),
            r is None <==> !(self is Text),
    {
        match self {
            Interface::Text(t) => Some(t),
            _ => None,
        }
    }

    pub fn element(&self) -> (r: Option<&ElementInterface>)
        ensures
            r matches Some(e) ==> self == Interface::Element(*e),
            r is None <==> !(self is Element),
    {
        match self {
            Interface::Element(e) => Some(e),
            _ => None,
        }
    }

    pub fn processing_instruction(&self) -> (r: Option<&ProcessingInstructionInterface>)
        ensures
            r matches Some(p) ==> self == Interface::ProcessingInstruction(*p),
            r is None <==> !(self is ProcessingInstruction),
    {
        match self {
            Interface::ProcessingInstruction(p) => Some(p),
            _ => None,
        }
    }
}

/// Same kind and same payload; elements compare their names, their flags and
/// their attributes as a multiset.
pub open spec fn payload_eq(a: Interface, b: Interface) -> bool {
    match (a, b) {
        (Interface::Document(_), Interface::Document(_)) => true,
        (Interface::Doctype(x), Interface::Doctype(y)) => x.name@ == y.name@ && x.public_id@ == y.public_id@
            && x.system_id@ == y.system_id@,
        (Interface::Comment(x), Interface::Comment(y)) => x.contents@ == y.contents@,
        (Interface::Text(x), Interface::Text(y)) => x.contents@ == y.contents@,
        (Interface::Element(x), Interface::Element(y)) => x.name@ == y.name@ && x.template == y.template
            && x.mathml_annotation_xml_integration_point == y.mathml_annotation_xml_integration_point
            && x.attrs@.to_multiset() == y.attrs@.to_multiset(),
        (Interface::ProcessingInstruction(x), Interface::ProcessingInstruction(y)) => x.data@ == y.data@
            && x.target@ == y.target@,
        _ => false,
    }
}

impl Interface {
    /// Compares two payloads as `payload_eq` says.
    pub fn same_payload(&self, other: &Interface) -> (r: bool)
        ensures
            r == payload_eq(*self, *other),
    {
        match (self, other) {
            (Interface::Document(_), Interface::Document(_)) => true,
            (Interface::Doctype(x), Interface::Doctype(y)) => x.name.eq(&y.name) && x.public_id.eq(&y.public_id)
                && x.system_id.eq(&y.system_id),
            (Interface::Comment(x), Interface::Comment(y)) => x.contents.eq(&y.contents),
            (Interface::Text(x), Interface::Text(y)) => x.contents.eq(&y.contents),
            (Interface::Element(x), Interface::Element(y)) => x.name.same(&y.name) && x.template == y.template
                && x.mathml_annotation_xml_integration_point == y.mathml_annotation_xml_integration_point
                && x.attrs.same_attrs(&y.attrs),
            (Interface::ProcessingInstruction(x), Interface::ProcessingInstruction(y)) => x.data.eq(&y.data)
                && x.target.eq(&y.target),
            _ => false,
        }
    }
}

impl PartialEq for Interface {
    fn eq(&self, other: &Interface) -> (r: bool) {
        self.same_payload(other)
    }
}

impl vstd::std_specs::cmp::PartialEqSpecImpl for Interface {
    open spec fn obeys_eq_spec() -> bool {
        true
    }

    open spec fn eq_spec(&self, other: &Interface) -> bool {
        payload_eq(*self, *other)
    }
}

} // verus!
