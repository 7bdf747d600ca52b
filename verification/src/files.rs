use vstd::prelude::*;

use crate::model::strings_view;
use xml::common::Position;
use xml::reader::{EventReader, XmlEvent as E};

verus! {

/// How the text of a file is read.
pub enum FileKind {
    /// XML or XHTML: the character data of the document.
    Xml,
    /// HTML: the text between the markup tags.
    Html,
    /// PDF.
    Pdf,
    /// Plain text, Markdown or source code: the whole file.
    Text,
}

/// Why a file cannot be read for indexing.
pub enum FileKindError {
    /// The file name has no extension.
    NoExtension,
    /// The extension is not one that is read.
    Unsupported { extension: String },
}

/// The extensions of files read as plain text: text, Markdown, and the
/// source and data files of common languages.
pub open spec fn is_text_extension(extension: Seq<char>) -> bool {
    extension == "txt"@
        || extension == "md"@
        || extension == "rs"@
        || extension == "c"@
        || extension == "h"@
        || extension == "cc"@
        || extension == "cpp"@
        || extension == "hpp"@
        || extension == "py"@
        || extension == "js"@
        || extension == "ts"@
        || extension == "java"@
        || extension == "go"@
        || extension == "rb"@
        || extension == "sh"@
        || extension == "toml"@
        || extension == "json"@
        || extension == "yaml"@
        || extension == "yml"@
        || extension == "csv"@
        || extension == "tex"@
}

/// How a file with the given extension is read: `xhtml` and `xml` as XML,
/// `html` and `htm` as HTML, `pdf` as PDF, the text extensions as text;
/// `None` for any other extension.
pub open spec fn file_kind_spec(extension: Seq<char>) -> Option<FileKind> {
    if extension == "xhtml"@ || extension == "xml"@ {
        Some(FileKind::Xml)
    } else if extension == "html"@ || extension == "htm"@ {
        Some(FileKind::Html)
    } else if extension == "pdf"@ {
        Some(FileKind::Pdf)
    } else if is_text_extension(extension) {
        Some(FileKind::Text)
    } else {
        None
    }
}

/// Whether the extension is one of the text extensions.
fn text_extension(e: &String) -> (b: bool)
    ensures
        b == is_text_extension(e@),
{
    *e == "txt".to_owned()
        || *e == "md".to_owned()
        || *e == "rs".to_owned()
        || *e == "c".to_owned()
        || *e == "h".to_owned()
        || *e == "cc".to_owned()
        || *e == "cpp".to_owned()
        || *e == "hpp".to_owned()
        || *e == "py".to_owned()
        || *e == "js".to_owned()
        || *e == "ts".to_owned()
        || *e == "java".to_owned()
        || *e == "go".to_owned()
        || *e == "rb".to_owned()
        || *e == "sh".to_owned()
        || *e == "toml".to_owned()
        || *e == "json".to_owned()
        || *e == "yaml".to_owned()
        || *e == "yml".to_owned()
        || *e == "csv".to_owned()
        || *e == "tex".to_owned()
}

/// Decides how a file is read from its extension.
pub fn file_kind(extension: Option<&str>) -> (r: Result<FileKind, FileKindError>)
    ensures
        match extension {
            None => r matches Err(FileKindError::NoExtension),
            Some(e) => match file_kind_spec(e@) {
                Some(k) => r == Ok::<FileKind, FileKindError>(k),
                None => r matches Err(FileKindError::Unsupported { extension }) && extension@
                    == e@,
            },
        },
{
    match extension {
        None => Err(FileKindError::NoExtension),
        Some(e) => {
            let e = e.to_owned();
            if e == "xhtml".to_owned() || e == "xml".to_owned() {
                Ok(FileKind::Xml)
            } else if e == "html".to_owned() || e == "htm".to_owned() {
                Ok(FileKind::Html)
            } else if e == "pdf".to_owned() {
                Ok(FileKind::Pdf)
            } else if text_extension(&e) {
                Ok(FileKind::Text)
            } else {
                Err(FileKindError::Unsupported { extension: e })
            }
        },
    }
}
/// The pieces of character data of a document, each followed by a space.
pub open spec fn spaced_text(texts: Seq<Seq<char>>) -> Seq<char>
    decreases texts.len(),
{
    if texts.len() == 0 {
        Seq::empty()
    } else {
        spaced_text(texts.drop_last()) + texts.last() + seq![' ']
    }
}

/// Joins the pieces of character data of an XML document into its text,
/// each piece followed by a space.
pub fn join_character_data(texts: &Vec<String>) -> (r: String)
    ensures
        r@ == spaced_text(strings_view(texts@)),
{
    let ghost t = strings_view(texts@);
    let mut r = String::new();
    let space = " ";
    proof {
        reveal_strlit(" ");
    }
    let mut i: usize = 0;
    while i < texts.len()
        invariant
            i <= texts.len(),
            t == strings_view(texts@),
            space@ == seq![' '],
            r@ == spaced_text(t.take(i as int)),
        decreases texts.len() - i,
    {
        assert(t.take(i + 1).drop_last() =~= t.take(i as int));
        r.append(texts[i].as_str());
        r.append(space);
        i = i + 1;
    }
    assert(t.take(texts.len() as int) =~= t);
    r
}

/// The text of an HTML document after reading `s`, and whether the reading
/// is inside a markup tag: a tag runs from `<` to the next `>` and stands
/// in the text as one space; every other character is kept.
pub open spec fn html_state(s: Seq<char>) -> (Seq<char>, bool)
    decreases s.len(),
{
    if s.len() == 0 {
        (Seq::empty(), false)
    } else {
        let before = html_state(s.drop_last());
        let c = s.last();
        if before.1 {
            if c == '>' {
                (before.0.push(' '), false)
            } else {
                before
            }
        } else if c == '<' {
            (before.0, true)
        } else {
            (before.0.push(c), false)
        }
    }
}

/// The text of an HTML document: its characters outside markup tags, each
/// tag standing as one space.
pub fn html_text(content: &[char]) -> (r: String)
    ensures
        r@ == html_state(content@).0,
{
    let mut text = String::new();
    let mut in_tag = false;
    let mut i: usize = 0;
    while i < content.len()
        invariant
            i <= content.len(),
            text@ == html_state(content@.take(i as int)).0,
            in_tag == html_state(content@.take(i as int)).1,
        decreases content.len() - i,
    {
        let c = content[i];
        assert(content@.take(i + 1).drop_last() =~= content@.take(i as int));
        if in_tag {
            if c == '>' {
                text.push(' ');
                in_tag = false;
            }
        } else if c == '<' {
            in_tag = true;
        } else {
            text.push(c);
        }
        i = i + 1;
    }
    assert(content@.take(content.len() as int) =~= content@);
    text
}

/// One event of an XML reader, variant for variant. Events that carry text
/// keep it; the structural events (the start and end of the document and
/// of elements, processing instructions, the document type) keep only
/// their kind.
pub enum XmlItem {
    StartDocument,
    EndDocument,
    ProcessingInstruction,
    StartElement,
    EndElement,
    CData(String),
    Comment(String),
    Characters(String),
    Whitespace(String),
    Doctype,
}

/// An event as plain values.
pub enum XmlItemView {
    StartDocument,
    EndDocument,
    ProcessingInstruction,
    StartElement,
    EndElement,
    CData(Seq<char>),
    Comment(Seq<char>),
    Characters(Seq<char>),
    Whitespace(Seq<char>),
    Doctype,
}

impl View for XmlItem {
    type V = XmlItemView;

    open spec fn view(&self) -> XmlItemView {
        match self {
            XmlItem::StartDocument => XmlItemView::StartDocument,
            XmlItem::EndDocument => XmlItemView::EndDocument,
            XmlItem::ProcessingInstruction => XmlItemView::ProcessingInstruction,
            XmlItem::StartElement => XmlItemView::StartElement,
            XmlItem::EndElement => XmlItemView::EndElement,
            XmlItem::CData(t) => XmlItemView::CData(t@),
            XmlItem::Comment(t) => XmlItemView::Comment(t@),
            XmlItem::Characters(t) => XmlItemView::Characters(t@),
            XmlItem::Whitespace(t) => XmlItemView::Whitespace(t@),
            XmlItem::Doctype => XmlItemView::Doctype,
        }
    }
}

/// Where and why an XML document could not be read.
pub struct XmlError {
    pub row: u64,
    pub column: u64,
    pub message: String,
}

/// The events that the `xml` crate's reader, with its default
/// configuration, produces for a document given as bytes, up to its end;
/// or the row, column and message of the first error.
pub uninterp spec fn xml_events(bytes: Seq<u8>) -> Result<Seq<XmlItemView>, (u64, u64, Seq<char>)>;

/// Events or an error, as plain values.
pub open spec fn xml_outcome(r: Result<Vec<XmlItem>, XmlError>) -> Result<
    Seq<XmlItemView>,
    (u64, u64, Seq<char>),
> {
    match r {
        Ok(v) => Ok(v@.map_values(|e: XmlItem| e@)),
        Err(e) => Err((e.row, e.column, e.message@)),
    }
}

/// `xml::reader::EventReader::new` on the bytes, iterated to the end: each
/// event converted, variant by variant, or the first error with its
/// position and message. The contract claims only that the result is the
/// reader's, named `xml_events`.
#[verifier::external_body]
fn read_xml_events(bytes: &[u8]) -> (r: Result<Vec<XmlItem>, XmlError>)
    ensures
        xml_outcome(r) == xml_events(bytes@),
{
    EventReader::new(bytes).into_iter().map(|event| event.map(|e| match e {
        E::StartDocument { .. } => XmlItem::StartDocument,
        E::EndDocument => XmlItem::EndDocument,
        E::ProcessingInstruction { .. } => XmlItem::ProcessingInstruction,
        E::StartElement { .. } => XmlItem::StartElement,
        E::EndElement { .. } => XmlItem::EndElement,
        E::CData(t) => XmlItem::CData(t),
        E::Comment(t) => XmlItem::Comment(t),
        E::Characters(t) => XmlItem::Characters(t),
        E::Whitespace(t) => XmlItem::Whitespace(t),
        E::Doctype { .. } => XmlItem::Doctype,
    }).map_err(|e| XmlError { row: e.position().row, column: e.position().column, message: e.msg() })).collect()
}

/// The pieces of character data among the events, in order: CDATA
/// sections, white space and comments are not part of a document's text.
pub open spec fn character_data(items: Seq<XmlItemView>) -> Seq<Seq<char>>
    decreases items.len(),
{
    if items.len() == 0 {
        Seq::empty()
    } else {
        let before = character_data(items.drop_last());
        match items.last() {
            XmlItemView::Characters(t) => before.push(t),
            _ => before,
        }
    }
}

/// The text of an XML document read as `items`: its pieces of character
/// data, each followed by a space.
pub fn text_of_events(items: &Vec<XmlItem>) -> (r: String)
    ensures
        r@ == spaced_text(character_data(items@.map_values(|e: XmlItem| e@))),
{
    let ghost iv = items@.map_values(|e: XmlItem| e@);
    let mut texts: Vec<String> = Vec::new();
    let mut i: usize = 0;
    while i < items.len()
        invariant
            i <= items.len(),
            iv == items@.map_values(|e: XmlItem| e@),
            strings_view(texts@) == character_data(iv.take(i as int)),
        decreases items.len() - i,
    {
        assert(iv.take(i + 1).drop_last() =~= iv.take(i as int));
        match &items[i] {
            XmlItem::Characters(t) => {
                let ghost before = texts@;
                texts.push(t.clone());
                assert(strings_view(texts@) =~= strings_view(before).push(t@));
            },
            _ => {},
        }
        i = i + 1;
    }
    assert(iv.take(items.len() as int) =~= iv);
    join_character_data(&texts)
}

/// The text of an XML document given as bytes, or where the reader stopped
/// with an error.
pub fn xml_document_text(bytes: &[u8]) -> (r: Result<String, XmlError>)
    ensures
        match xml_events(bytes@) {
            Ok(items) => r matches Ok(s) && s@ == spaced_text(character_data(items)),
            Err(e) => r matches Err(x) && (x.row, x.column, x.message@) == e,
        },
{
    match read_xml_events(bytes) {
        Ok(items) => Ok(text_of_events(&items)),
        Err(e) => Err(e),
    }
}

} // verus!
