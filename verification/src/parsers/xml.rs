//! XML 1.0, mapped onto the value tree by a small vocabulary of fixed keys.

use crate::bytes::append_bytes;
use crate::document::{bare, DocModel, Document};
use crate::error::{Error, Fault};
use crate::format::{extension_list, Emission, Format};
use crate::format_tag::FormatTag;
use crate::parsers::xml_collected::holds_plain_document;
use crate::parsers::xml_read::{parse_xml, xml_parsed};
use crate::parsers::xml_round_trip::{is_clean_document, spells_xml};
use crate::parsers::xml_write::{render_xml, xml_rendered};
use crate::value::Tree;
use crate::write_options::WriteOptions;
use vstd::prelude::*;

verus! {

/// XML 1.0 format implementation.
#[derive(Debug, Clone, Copy)]
pub struct Xml;

impl Format for Xml {
    open spec fn tag(&self) -> FormatTag {
        FormatTag::Xml
    }

    open spec fn parses(&self, bytes: Seq<u8>) -> bool {
        true
    }

    open spec fn parse_model(&self, bytes: Seq<u8>) -> Result<DocModel, Fault> {
        match xml_parsed(bytes) {
            Ok((value, _)) => Ok(bare(value, FormatTag::Xml, false)),
            Err(f) => Err(f),
        }
    }

    open spec fn write_model(&self, doc: DocModel) -> Emission {
        match xml_rendered(doc.value) {
            Ok(bytes) => (bytes, Ok(())),
            Err(f) => (Seq::empty(), Err(f)),
        }
    }

    open spec fn options_model(&self, doc: DocModel, opts: WriteOptions) -> Emission {
        self.write_model(doc)
    }

    fn name(&self) -> (r: &'static str) {
        FormatTag::Xml.name()
    }

    fn extensions(&self) -> (r: Vec<&'static str>) {
        extension_list(FormatTag::Xml)
    }

    /// The bytes that are written of a document that reads back give that
    /// document. What is read is such a document where its names and texts stay
    /// as they are when they are written.
    fn parse(&self, bytes: &[u8]) -> (r: Result<Document, Error>)
        ensures
            forall|t: Tree| #[trigger] spells_xml(bytes@, t) ==> (r matches Ok(doc) && doc@.value
                == t),
            r matches Ok(doc) ==> holds_plain_document(doc@.value) ==> is_clean_document(
                doc@.value,
            ),
    {
        match parse_xml(bytes) {
            Ok((value, _notes)) => Ok(Document::value_only(value, FormatTag::Xml)),
            Err(e) => Err(e),
        }
    }

    fn parse_checked(&self, bytes: &[u8]) -> (r: Option<Result<Document, Error>>) {
        Some(self.parse(bytes))
    }

    fn write(&self, doc: &Document, w: &mut Vec<u8>) -> (r: Result<(), Error>) {
        assert(w@ + Seq::<u8>::empty() =~= w@);
        match render_xml(doc.value()) {
            Ok(bytes) => {
                append_bytes(w, bytes.as_slice());
                Ok(())
            },
            Err(e) => Err(e),
        }
    }

    fn write_with_options(&self, doc: &Document, w: &mut Vec<u8>, _opts: &WriteOptions) -> (r: Result<
        (),
        Error,
    >) {
        self.write(doc, w)
    }
}

} // verus!
