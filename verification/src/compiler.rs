//! Render pipeline: compiles a markup source, with its bibliography and
//! image blobs, to a combined page markup fragment or to a binary document.
//!
//! The assembly of the compilation unit and the page-join formatting are
//! verified; the typesetting engine itself is an external collaborator
//! reached through trusted wrappers, and its output is treated as opaque.

use vstd::prelude::*;
use crate::assemble::assemble;
use crate::assemble::AssembleError;
use crate::assemble::CompilationUnit;
use crate::assemble::ImageEntry;
use crate::assemble::spec_blank;

verus! {

/// Failure of one render attempt: the trimmed source was empty, or the
/// render engine reported an error, surfaced verbatim as an opaque message.
#[derive(Debug)]
pub enum PipelineError {
    EmptySource,
    RenderFailure(String),
}

impl PipelineError {
    /// The message shown to the user for this failure.
    pub fn message(&self) -> (r: String)
        ensures
            *self is EmptySource ==> r@ == "Source code is empty"@,
            (*self matches PipelineError::RenderFailure(m) ==> r@ == m@),
    {
        match self {
            PipelineError::EmptySource => String::from_str("Source code is empty"),
            PipelineError::RenderFailure(m) => m.clone(),
        }
    }
}

#[verifier::external_type_specification]
#[verifier::external_body]
pub struct ExPagedDocument(typst_layout::PagedDocument);

/// Names the page markup of a compiled document: one svg fragment per page,
/// in page order, as typst_svg's export with default options yields it — a
/// function of the document alone.
pub uninterp spec fn doc_page_svgs(d: typst_layout::PagedDocument) -> Seq<Seq<char>>;

/// Names the binary export of a compiled document: the pdf bytes that
/// typst_pdf's export with default options yields, or nothing where that
/// export fails — a function of the document alone.
pub uninterp spec fn doc_pdf_bytes(d: typst_layout::PagedDocument) -> Option<Seq<u8>>;

/// Relies on typst_as_lib's TypstEngine: builds an engine over the unit's
/// source and static blobs (embedded fonts only) and compiles it to a paged
/// document. The result is opaque: which branch comes back, and the error
/// message, are the engine's alone.
#[verifier::external_body]
fn engine_compile(unit: &CompilationUnit) -> (r: Result<typst_layout::PagedDocument, String>) {
    let files: Vec<(&str, &[u8])> = unit.blobs.iter().map(
        |b| (b.name.as_str(), b.bytes.as_slice()),
    ).collect();
    let engine = typst_as_lib::TypstEngine::builder().main_file(unit.source.as_str())
        .search_fonts_with(
        typst_as_lib::typst_kit_options::TypstKitFontOptions::default().include_system_fonts(
            false,
        ).include_embedded_fonts(true),
    ).with_static_file_resolver(files).build();
    let result = engine.compile::<typst_layout::PagedDocument>();
    match result.output {
        Ok(doc) => Ok(doc),
        Err(e) => Err(format!("Compilation error: {:?}", e)),
    }
}

/// Relies on PagedDocument::pages: one svg fragment is exported per page.
#[verifier::external_body]
fn doc_page_count(doc: &typst_layout::PagedDocument) -> (n: usize)
    ensures
        n == doc_page_svgs(*doc).len(),
{
    doc.pages().len()
}

/// Relies on typst_svg::svg with default options: the svg text of one page,
/// a function of the document alone.
#[verifier::external_body]
fn page_to_svg(doc: &typst_layout::PagedDocument, i: usize) -> (r: String)
    requires
        i < doc_page_svgs(*doc).len(),
    ensures
        r@ == doc_page_svgs(*doc)[i as int],
{
    typst_svg::svg(&doc.pages()[i], &typst_svg::SvgOptions::default())
}

/// Relies on typst_pdf::pdf with default options: the pdf bytes of the
/// document, a function of the document alone; the error message is the
/// export's own.
#[verifier::external_body]
fn doc_to_pdf(doc: &typst_layout::PagedDocument) -> (r: Result<Vec<u8>, String>)
    ensures
        (r matches Ok(bytes) ==> doc_pdf_bytes(*doc) == Some(bytes@)),
        r is Err ==> doc_pdf_bytes(*doc) is None,
{
    match typst_pdf::pdf(doc, &typst_pdf::PdfOptions::default()) {
        Ok(bytes) => Ok(bytes),
        Err(e) => Err(format!("PDF generation error: {:?}", e)),
    }
}

/// The container of the first page: no leading divider.
pub open spec fn page_div_open() -> Seq<char> {
    seq!['<', 'd', 'i', 'v', '>']
}

/// The container of every later page: prefixed with a visual divider.
pub open spec fn page_divider_open() -> Seq<char> {
    seq![
        '<',
        'd',
        'i',
        'v',
        ' ',
        's',
        't',
        'y',
        'l',
        'e',
        '=',
        '"',
        'm',
        'a',
        'r',
        'g',
        'i',
        'n',
        '-',
        't',
        'o',
        'p',
        ':',
        ' ',
        '1',
        '0',
        'p',
        'x',
        ';',
        ' ',
        'b',
        'o',
        'r',
        'd',
        'e',
        'r',
        '-',
        't',
        'o',
        'p',
        ':',
        ' ',
        '1',
        'p',
        'x',
        ' ',
        's',
        'o',
        'l',
        'i',
        'd',
        ' ',
        '#',
        'c',
        'c',
        'c',
        ';',
        ' ',
        'p',
        'a',
        'd',
        'd',
        'i',
        'n',
        'g',
        '-',
        't',
        'o',
        'p',
        ':',
        ' ',
        '1',
        '0',
        'p',
        'x',
        ';',
        '"',
        '>',
    ]
}

pub open spec fn page_div_close() -> Seq<char> {
    seq!['<', '/', 'd', 'i', 'v', '>']
}

/// One page's container: the page's own fragment wrapped in a container,
/// with a divider prefix on every page but the first.
pub open spec fn page_container(first: bool, page: Seq<char>) -> Seq<char> {
    if first {
        page_div_open() + page + page_div_close()
    } else {
        page_divider_open() + page + page_div_close()
    }
}

/// The first `n` pages joined by the page join rule, in page order, every
/// page wrapped exactly once.
pub open spec fn joined_upto(pages: Seq<Seq<char>>, n: int) -> Seq<char>
    decreases n,
{
    if n <= 0 {
        Seq::empty()
    } else {
        joined_upto(pages, n - 1) + page_container(n == 1, pages[n - 1])
    }
}

/// The whole document's combined fragment.
pub open spec fn joined_pages(pages: Seq<Seq<char>>) -> Seq<char> {
    joined_upto(pages, pages.len() as int)
}

pub proof fn lemma_joined_unfold(pages: Seq<Seq<char>>, n: int)
    ensures
        n <= 0 ==> joined_upto(pages, n) == Seq::<char>::empty(),
        n > 0 ==> joined_upto(pages, n) == joined_upto(pages, n - 1) + page_container(
            n == 1,
            pages[n - 1],
        ),
{
}

/// Joins the pages' fragments into one combined fragment: page order kept
/// exactly, every page wrapped in one container, the first without and all
/// later ones with a divider prefix.
pub fn join_pages(pages: &Vec<String>) -> (r: String)
    ensures
        r@ == joined_pages(pages@.map_values(|p: String| p@)),
{
    let ghost vs = pages@.map_values(|p: String| p@);
    let mut out = String::new();
    let mut i: usize = 0;
    while i < pages.len()
        invariant
            0 <= i <= pages.len(),
            vs == pages@.map_values(|p: String| p@),
            vs.len() == pages.len(),
            out@ == joined_upto(vs, i as int),
        decreases pages.len() - i,
    {
        proof {
            lemma_joined_unfold(vs, i + 1);
            assert(vs[i as int] == pages@[i as int]@);
        }
        if i == 0 {
            out.append("<div>");
            proof {
                reveal_strlit("<div>");
                assert("<div>"@ =~= page_div_open());
            }
        } else {
            out.append(
                "<div style=\"margin-top: 10px; border-top: 1px solid #ccc; padding-top: 10px;\">",
            );
            proof {
                reveal_strlit(
                    "<div style=\"margin-top: 10px; border-top: 1px solid #ccc; padding-top: 10px;\">",
                );
                assert("<div style=\"margin-top: 10px; border-top: 1px solid #ccc; padding-top: 10px;\">"@
                    =~= page_divider_open());
            }
        }
        out.append(pages[i].as_str());
        out.append("</div>");
        proof {
            reveal_strlit("</div>");
            assert("</div>"@ =~= page_div_close());
            assert(out@ =~= joined_upto(vs, i + 1));
        }
        i = i + 1;
    }
    out
}

/// Renders every page of a compiled document and joins the fragments by the
/// page join rule.
pub fn format_document(doc: &typst_layout::PagedDocument) -> (r: String)
    ensures
        r@ == joined_pages(doc_page_svgs(*doc)),
{
    let n = doc_page_count(doc);
    let mut pages: Vec<String> = Vec::new();
    let mut i: usize = 0;
    while i < n
        invariant
            0 <= i <= n,
            n == doc_page_svgs(*doc).len(),
            pages@.len() == i,
            pages@.map_values(|p: String| p@) == doc_page_svgs(*doc).take(i as int),
        decreases n - i,
    {
        let svg = page_to_svg(doc, i);
        pages.push(svg);
        proof {
            assert(pages@.map_values(|p: String| p@) =~= doc_page_svgs(*doc).take(i + 1));
        }
        i = i + 1;
    }
    proof {
        assert(doc_page_svgs(*doc).take(n as int) =~= doc_page_svgs(*doc));
    }
    join_pages(&pages)
}

/// Exports a compiled document as one opaque binary document, passed
/// through unchanged from the engine's export.
pub fn export_document(doc: &typst_layout::PagedDocument) -> (r: Result<Vec<u8>, PipelineError>)
    ensures
        (doc_pdf_bytes(*doc) matches Some(bytes) ==> (r matches Ok(b) && b@ == bytes)),
        doc_pdf_bytes(*doc) is None ==> (r matches Err(e) && e is RenderFailure),
{
    match doc_to_pdf(doc) {
        Ok(bytes) => Ok(bytes),
        Err(m) => Err(PipelineError::RenderFailure(m)),
    }
}

/// Stateless facade over the render engine.
pub struct TypstCompiler;

impl TypstCompiler {
    pub fn new() -> (r: Result<TypstCompiler, String>)
        ensures
            r is Ok,
    {
        Ok(TypstCompiler)
    }

    /// Compiles the source to one combined markup fragment. Fails with
    /// `EmptySource`, before the engine is ever invoked, exactly when the
    /// trimmed source is empty; an engine failure is surfaced verbatim as
    /// `RenderFailure`. A successful result is some compiled document's
    /// pages joined by the page join rule.
    pub fn compile_to_svg(
        &self,
        source: &str,
        bibliography: Option<&str>,
        images: &Vec<ImageEntry>,
    ) -> (r: Result<String, PipelineError>)
        ensures
            spec_blank(source@) <==> r == Result::<String, PipelineError>::Err(
                PipelineError::EmptySource,
            ),
            (r matches Ok(svg) ==> !spec_blank(source@) && exists|d: typst_layout::PagedDocument|
                svg@ == joined_pages(#[trigger] doc_page_svgs(d))),
            (r matches Err(e) ==> (e is RenderFailure ==> !spec_blank(source@))),
    {
        let unit = match assemble(source, bibliography, images) {
            Ok(pair) => pair.0,
            Err(AssembleError::EmptySource) => {
                return Err(PipelineError::EmptySource);
            },
        };
        match engine_compile(&unit) {
            Ok(doc) => {
                let svg = format_document(&doc);
                proof {
                    assert(svg@ == joined_pages(doc_page_svgs(doc)));
                }
                Ok(svg)
            },
            Err(msg) => Err(PipelineError::RenderFailure(msg)),
        }
    }

    /// Compiles the source to one opaque binary document. Fails with
    /// `EmptySource`, before the engine is ever invoked, exactly when the
    /// trimmed source is empty; an engine failure is surfaced verbatim as
    /// `RenderFailure`. A successful result is some compiled document's
    /// binary export, passed through unchanged.
    pub fn compile_to_pdf(
        &self,
        source: &str,
        bibliography: Option<&str>,
        images: &Vec<ImageEntry>,
    ) -> (r: Result<Vec<u8>, PipelineError>)
        ensures
            spec_blank(source@) <==> r == Result::<Vec<u8>, PipelineError>::Err(
                PipelineError::EmptySource,
            ),
            (r matches Ok(bytes) ==> !spec_blank(source@) && exists|
                d: typst_layout::PagedDocument,
            |
                #[trigger] doc_pdf_bytes(d) == Some(bytes@)),
            (r matches Err(e) ==> (e is RenderFailure ==> !spec_blank(source@))),
    {
        let unit = match assemble(source, bibliography, images) {
            Ok(pair) => pair.0,
            Err(AssembleError::EmptySource) => {
                return Err(PipelineError::EmptySource);
            },
        };
        match engine_compile(&unit) {
            Ok(doc) => {
                match export_document(&doc) {
                    Ok(bytes) => {
                        proof {
                            assert(doc_pdf_bytes(doc) == Some(bytes@));
                        }
                        Ok(bytes)
                    },
                    Err(e) => Err(e),
                }
            },
            Err(msg) => Err(PipelineError::RenderFailure(msg)),
        }
    }
}

} // verus!
