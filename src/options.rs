//! Parser options and the one-byte encoding of the quirks mode.

use vstd::prelude::*;

verus! {

/// How far the document asks for HTML-compatibility behaviour.
#[derive(Debug, Clone, Copy, PartialEq, Eq, Structural)]
pub enum QuirksMode {
    Quirks,
    LimitedQuirks,
    NoQuirks,
}

pub const QUIRKS_MODE_FULL: u8 = 0;

pub const QUIRKS_MODE_LIMITED: u8 = 1;

pub const QUIRKS_MODE_OFF: u8 = 2;

/// The byte encoding: 0, 1, 2 for full, limited and no quirks.
pub open spec fn quirks_code(q: QuirksMode) -> u8 {
    match q {
        QuirksMode::Quirks => 0,
        QuirksMode::LimitedQuirks => 1,
        QuirksMode::NoQuirks => 2,
    }
}

/// Decodes a quirks mode; bytes above 2 give `None`.
pub fn convert_u8_to_quirks_mode(num: u8) -> (r: Option<QuirksMode>)
    ensures
        num <= 2 <==> r is Some,
        r matches Some(q) ==> quirks_code(q) == num,
{
    match num {
        QUIRKS_MODE_FULL => Some(QuirksMode::Quirks),
        QUIRKS_MODE_LIMITED => Some(QuirksMode::LimitedQuirks),
        QUIRKS_MODE_OFF => Some(QuirksMode::NoQuirks),
        _ => None,
    }
}

/// Encodes a quirks mode as one byte.
pub fn convert_quirks_mode_to_u8(q: QuirksMode) -> (r: u8)
    ensures
        r == quirks_code(q),
{
    match q {
        QuirksMode::Quirks => QUIRKS_MODE_FULL,
        QuirksMode::LimitedQuirks => QUIRKS_MODE_LIMITED,
        QuirksMode::NoQuirks => QUIRKS_MODE_OFF,
    }
}

/// Decoding an encoded mode gives the mode back.
pub proof fn lemma_quirks_round_trip(q: QuirksMode)
    ensures
        quirks_code(q) <= 2,
        forall|p: QuirksMode| quirks_code(p) == quirks_code(q) ==> p == q,
{
}

/// An option record was given a value outside its range.
#[derive(Debug, Clone, PartialEq, Eq, Structural)]
pub enum OptionsError {
    /// The quirks-mode byte was above 2; it is carried along.
    InvalidQuirksMode(u8),
}

/// Options of the HTML parser.
pub struct PyHtmlOptions {
    exact_errors: bool,
    discard_bom: bool,
    profile: bool,
    iframe_srcdoc: bool,
    drop_doctype: bool,
    full_document: bool,
    quirks_mode: QuirksMode,
}

impl PyHtmlOptions {
    pub closed spec fn spec_fields(&self) -> (bool, bool, bool, bool, bool, bool, QuirksMode) {
        (
            self.full_document,
            self.exact_errors,
            self.discard_bom,
            self.profile,
            self.iframe_srcdoc,
            self.drop_doctype,
            self.quirks_mode,
        )
    }

    /// Checks the quirks-mode byte and keeps the flags as given.
    pub fn new(
        full_document: bool,
        exact_errors: bool,
        discard_bom: bool,
        profile: bool,
        iframe_srcdoc: bool,
        drop_doctype: bool,
        quirks_mode: u8,
    ) -> (r: Result<PyHtmlOptions, OptionsError>)
        ensures
            quirks_mode > 2 <==> r == Err::<PyHtmlOptions, OptionsError>(OptionsError::InvalidQuirksMode(quirks_mode)),
            r matches Ok(o) ==> o.spec_fields().0 == full_document && o.spec_fields().1 == exact_errors
                && o.spec_fields().2 == discard_bom && o.spec_fields().3 == profile
                && o.spec_fields().4 == iframe_srcdoc && o.spec_fields().5 == drop_doctype
                && quirks_code(o.spec_fields().6) == quirks_mode,
    {
        match convert_u8_to_quirks_mode(quirks_mode) {
            Some(q) => Ok(PyHtmlOptions {
                exact_errors,
                discard_bom,
                profile,
                iframe_srcdoc,
                drop_doctype,
                full_document,
                quirks_mode: q,
            }),
            None => Err(OptionsError::InvalidQuirksMode(quirks_mode)),
        }
    }

    /// A whole document, no exact errors, byte order mark dropped, no
    /// profiling, no srcdoc, doctype kept, no quirks.
    pub fn default_options() -> (r: PyHtmlOptions)
        ensures
            r.spec_fields() == (true, false, true, false, false, false, QuirksMode::NoQuirks),
    {
        PyHtmlOptions {
            exact_errors: false,
            discard_bom: true,
            profile: false,
            iframe_srcdoc: false,
            drop_doctype: false,
            full_document: true,
            quirks_mode: QuirksMode::NoQuirks,
        }
    }

    pub fn quirks_mode(&self) -> (r: u8)
        ensures
            r == quirks_code(self.spec_fields().6),
    {
        convert_quirks_mode_to_u8(self.quirks_mode)
    }

    pub fn quirks(&self) -> (r: QuirksMode)
        ensures
            r == self.spec_fields().6,
    {
        self.quirks_mode
    }

    pub fn full_document(&self) -> (r: bool)
        ensures
            r == self.spec_fields().0,
    {
        self.full_document
    }

    pub fn exact_errors(&self) -> (r: bool)
        ensures
            r == self.spec_fields().1,
    {
        self.exact_errors
    }

    pub fn discard_bom(&self) -> (r: bool)
        ensures
            r == self.spec_fields().2,
    {
        self.discard_bom
    }

    pub fn profile(&self) -> (r: bool)
        ensures
            r == self.spec_fields().3,
    {
        self.profile
    }

    pub fn iframe_srcdoc(&self) -> (r: bool)
        ensures
            r == self.spec_fields().4,
    {
        self.iframe_srcdoc
    }

    pub fn drop_doctype(&self) -> (r: bool)
        ensures
            r == self.spec_fields().5,
    {
        self.drop_doctype
    }
}

/// Options of the XML parser.
pub struct PyXmlOptions {
    exact_errors: bool,
    discard_bom: bool,
    profile: bool,
}

impl PyXmlOptions {
    pub closed spec fn spec_fields(&self) -> (bool, bool, bool) {
        (self.exact_errors, self.discard_bom, self.profile)
    }

    pub fn new(exact_errors: bool, discard_bom: bool, profile: bool) -> (r: PyXmlOptions)
        ensures
            r.spec_fields() == (exact_errors, discard_bom, profile),
    {
        PyXmlOptions { exact_errors, discard_bom, profile }
    }

    pub fn exact_errors(&self) -> (r: bool)
        ensures
            r == self.spec_fields().0,
    {
        self.exact_errors
    }

    pub fn discard_bom(&self) -> (r: bool)
        ensures
            r == self.spec_fields().1,
    {
        self.discard_bom
    }

    pub fn profile(&self) -> (r: bool)
        ensures
            r == self.spec_fields().2,
    {
        self.profile
    }
}

} // verus!
