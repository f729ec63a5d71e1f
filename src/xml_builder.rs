//! The context document: one XML file element per selected file.
use vstd::prelude::*;
use vstd::string::StringExecFns;
use crate::text::{chars_of, push_char};

verus! {

#[verifier::external_type_specification]
#[verifier::external_body]
pub struct ExXmlError(quick_xml::Error);

/// `c` as it stands in an XML attribute value.
pub open spec fn xml_escape_char(c: char) -> Seq<char> {
    if c == '<' {
        "&lt;"@
    } else if c == '>' {
        "&gt;"@
    } else if c == '\'' {
        "&apos;"@
    } else if c == '&' {
        "&amp;"@
    } else if c == '"' {
        "&quot;"@
    } else {
        seq![c]
    }
}

/// `s` as it stands in an XML attribute value.
pub open spec fn xml_escaped(s: Seq<char>) -> Seq<char>
    decreases s.len(),
{
    if s.len() == 0 {
        Seq::empty()
    } else {
        xml_escaped(s.drop_last()) + xml_escape_char(s.last())
    }
}

/// The XML declaration that opens the document.
pub open spec fn declaration() -> Seq<char> {
    "<?xml version=\"1.0\" encoding=\"utf-8\"?>"@
}

/// Content as it stands inside a character-data section: each `]]>` is
/// split across two sections (`]]` ends one, `>` starts the next), so the
/// content reads back unchanged.
pub open spec fn cdata_body(c: Seq<char>) -> Seq<char>
    decreases c.len(),
{
    if c.len() == 0 {
        Seq::empty()
    } else if c.len() >= 3 && c[0] == ']' && c[1] == ']' && c[2] == '>' {
        "]]]]><![CDATA[>"@ + cdata_body(c.subrange(3, c.len() as int))
    } else {
        seq![c[0]] + cdata_body(c.drop_first())
    }
}

/// The element of one file: its path as an attribute, its content verbatim
/// in character data.
pub open spec fn file_element(path: Seq<char>, content: Seq<char>) -> Seq<char> {
    "<file path=\""@ + xml_escaped(path) + "\">"@ + "<![CDATA["@ + cdata_body(content) + "]]>"@ + "</file>"@
}

/// The elements of all files, in order.
pub open spec fn file_elements(files: Seq<(String, String)>) -> Seq<char>
    decreases files.len(),
{
    if files.len() == 0 {
        Seq::empty()
    } else {
        file_elements(files.drop_last()) + file_element(files.last().0@, files.last().1@)
    }
}

/// The whole document for `files`.
pub open spec fn context_document(files: Seq<(String, String)>) -> Seq<char> {
    declaration() + "<context_slicer>"@ + file_elements(files) + "</context_slicer>"@
}

/// Why the document could not be written.
#[derive(Debug, Clone, Copy, PartialEq, Eq)]
pub enum XmlError {
    /// The XML writer reported a failure.
    WriteFailed,
}

/// Relies on `quick_xml::Writer::write_event` with `Event::Decl`: writes
/// `<?` and the declaration's text, `xml version="1.0" encoding="utf-8"`,
/// then `?>`.
#[verifier::external_body]
fn xml_decl() -> (r: Result<String, quick_xml::Error>)
    ensures
        r is Ok,
        r matches Ok(s) ==> s@ == declaration(),
{
    let mut w = quick_xml::Writer::new(Vec::new());
    let decl = quick_xml::events::BytesDecl::new("1.0", Some("utf-8"), None);
    w.write_event(quick_xml::events::Event::Decl(decl))?;
    Ok(String::from_utf8_lossy(&w.into_inner()).into_owned())
}

/// Relies on `quick_xml::Writer::write_event` with `Event::Start`: writes
/// `<`, the name, `>`.
#[verifier::external_body]
fn xml_start(name: &str) -> (r: Result<String, quick_xml::Error>)
    ensures
        r is Ok,
        r matches Ok(s) ==> s@ == "<"@ + name@ + ">"@,
{
    let mut w = quick_xml::Writer::new(Vec::new());
    w.write_event(quick_xml::events::Event::Start(quick_xml::events::BytesStart::new(name)))?;
    Ok(String::from_utf8_lossy(&w.into_inner()).into_owned())
}

/// Relies on `quick_xml::events::BytesStart::push_attribute` and
/// `Writer::write_event`: writes `<`, the name, a space, the key, `="`, the
/// value with `<`, `>`, `'`, `&` and `"` escaped, `">`.
#[verifier::external_body]
fn xml_start_with_attribute(name: &str, key: &str, value: &str) -> (r: Result<String, quick_xml::Error>)
    ensures
        r is Ok,
        r matches Ok(s) ==> s@ == "<"@ + name@ + " "@ + key@ + "=\""@ + xml_escaped(value@) + "\">"@,
{
    let mut w = quick_xml::Writer::new(Vec::new());
    let mut start = quick_xml::events::BytesStart::new(name);
    start.push_attribute((key, value));
    w.write_event(quick_xml::events::Event::Start(start))?;
    Ok(String::from_utf8_lossy(&w.into_inner()).into_owned())
}

/// Relies on `quick_xml::Writer::write_event` with `Event::CData`: writes
/// `<![CDATA[`, the content unchanged, `]]>`. Writing into a `Vec<u8>`
/// never fails, so every wrapper here gives `Ok`.
#[verifier::external_body]
fn xml_cdata(content: &str) -> (r: Result<String, quick_xml::Error>)
    ensures
        r is Ok,
        r matches Ok(s) ==> s@ == "<![CDATA["@ + content@ + "]]>"@,
{
    let mut w = quick_xml::Writer::new(Vec::new());
    w.write_event(quick_xml::events::Event::CData(quick_xml::events::BytesCData::new(content)))?;
    Ok(String::from_utf8_lossy(&w.into_inner()).into_owned())
}

/// Relies on `quick_xml::Writer::write_event` with `Event::End`: writes
/// `</`, the name, `>`.
#[verifier::external_body]
fn xml_end(name: &str) -> (r: Result<String, quick_xml::Error>)
    ensures
        r is Ok,
        r matches Ok(s) ==> s@ == "</"@ + name@ + ">"@,
{
    let mut w = quick_xml::Writer::new(Vec::new());
    w.write_event(quick_xml::events::Event::End(quick_xml::events::BytesEnd::new(name)))?;
    Ok(String::from_utf8_lossy(&w.into_inner()).into_owned())
}

/// Appends a written piece, or passes on the writer's failure.
fn append_piece(out: &mut String, piece: Result<String, quick_xml::Error>) -> (r: Result<(), XmlError>)
    ensures
        piece matches Ok(p) ==> r is Ok && final(out)@ == old(out)@ + p@,
        piece is Err ==> r == Err::<(), XmlError>(XmlError::WriteFailed),
{
    match piece {
        Ok(p) => {
            out.append(p.as_str());
            Ok(())
        },
        Err(_) => Err(XmlError::WriteFailed),
    }
}

/// The content of a character-data section for `content`.
pub fn escape_cdata(content: &str) -> (r: String)
    ensures
        r@ == cdata_body(content@),
{
    let cs = chars_of(content);
    let mut out = String::new();
    let mut i: usize = 0;
    proof {
        assert(cs@.subrange(0, cs@.len() as int) =~= cs@);
    }
    while i < cs.len()
        invariant
            i <= cs@.len(),
            cs@ == content@,
            out@ + cdata_body(cs@.subrange(i as int, cs@.len() as int)) == cdata_body(content@),
        decreases cs@.len() - i,
    {
        let ghost rest = cs@.subrange(i as int, cs@.len() as int);
        let ghost before = out@;
        if cs.len() - i >= 3 && cs[i] == ']' && cs[i + 1] == ']' && cs[i + 2] == '>' {
            out.append("]]]]><![CDATA[>");
            proof {
                assert(rest[0] == ']' && rest[1] == ']' && rest[2] == '>');
                assert(rest.subrange(3, rest.len() as int) =~= cs@.subrange(i + 3, cs@.len() as int));
                assert(out@ + cdata_body(cs@.subrange(i + 3, cs@.len() as int)) =~= before + cdata_body(rest));
            }
            i += 3;
        } else {
            push_char(&mut out, cs[i]);
            proof {
                assert(rest[0] == cs@[i as int]);
                assert(rest.drop_first() =~= cs@.subrange(i + 1, cs@.len() as int));
                assert(out@ + cdata_body(cs@.subrange(i + 1, cs@.len() as int)) =~= before + cdata_body(rest));
            }
            i += 1;
        }
    }
    proof {
        assert(cs@.subrange(i as int, cs@.len() as int) =~= Seq::<char>::empty());
        assert(out@ + Seq::<char>::empty() =~= out@);
    }
    out
}

/// Renders `(path, content)` pairs as one document: the declaration, a
/// `context_slicer` root element, and one `file` element per pair, in
/// order, with the content verbatim.
pub fn build_context_xml(files: &Vec<(String, String)>) -> (r: Result<String, XmlError>)
    ensures
        r is Ok,
        r matches Ok(s) ==> s@ == context_document(files@),
{
    proof {
        reveal_strlit("context_slicer");
        reveal_strlit("file");
        reveal_strlit("path");
        reveal_strlit("<context_slicer>");
        reveal_strlit("</context_slicer>");
        reveal_strlit("<file path=\"");
        reveal_strlit("</file>");
        reveal_strlit("<");
        reveal_strlit(">");
        reveal_strlit("</");
        reveal_strlit(" ");
        reveal_strlit("=\"");
        reveal_strlit("\">");
    }
    let mut out = String::new();
    append_piece(&mut out, xml_decl())?;
    append_piece(&mut out, xml_start("context_slicer"))?;
    proof {
        assert(out@ =~= declaration() + "<context_slicer>"@);
    }
    let mut i: usize = 0;
    while i < files.len()
        invariant
            i <= files@.len(),
            out@ == declaration() + "<context_slicer>"@ + file_elements(files@.subrange(0, i as int)),
        decreases files@.len() - i,
    {
        let ghost before = out@;
        let (path, content) = (&files[i].0, &files[i].1);
        append_piece(&mut out, xml_start_with_attribute("file", "path", path.as_str()))?;
        let body = escape_cdata(content.as_str());
        append_piece(&mut out, xml_cdata(body.as_str()))?;
        append_piece(&mut out, xml_end("file"))?;
        proof {
reveal_strlit("file");
            reveal_strlit("path");
            reveal_strlit("<file path=\"");
            reveal_strlit("</file>");
            reveal_strlit("<");
            reveal_strlit(">");
            reveal_strlit("</");
            reveal_strlit(" ");
            reveal_strlit("=\"");
            reveal_strlit("\">");
            let s = files@.subrange(0, i + 1);
            assert(s.drop_last() =~= files@.subrange(0, i as int));
            assert(s.last() == files@[i as int]);
            assert("<"@ + "file"@ + " "@ + "path"@ + "=\""@ =~= "<file path=\""@);
            assert("</"@ + "file"@ + ">"@ =~= "</file>"@);
            assert(out@ =~= before + file_element(path@, content@));
        }
        i += 1;
    }
    append_piece(&mut out, xml_end("context_slicer"))?;
    proof {
        reveal_strlit("context_slicer");
        reveal_strlit("</context_slicer>");
        reveal_strlit("</");
        reveal_strlit(">");
        assert(files@.subrange(0, i as int) =~= files@);
        assert("</"@ + "context_slicer"@ + ">"@ =~= "</context_slicer>"@);
    }
    Ok(out)
}

} // verus!
