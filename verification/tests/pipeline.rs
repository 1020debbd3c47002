use typst_studio::assemble::ImageEntry;
use typst_studio::compiler::{join_pages, PipelineError, TypstCompiler};

const DIVIDER: &str =
    "<div style=\"margin-top: 10px; border-top: 1px solid #ccc; padding-top: 10px;\">";

#[test]
fn three_pages_join_in_order_with_dividers_after_the_first() {
    let pages = vec![
        String::from("<svg>one</svg>"),
        String::from("<svg>two</svg>"),
        String::from("<svg>three</svg>"),
    ];
    let joined = join_pages(&pages);
    let expected = format!(
        "<div><svg>one</svg></div>{}<svg>two</svg></div>{}<svg>three</svg></div>",
        DIVIDER, DIVIDER
    );
    assert_eq!(joined, expected);
    // Exactly three containers, the first without a divider prefix.
    assert_eq!(joined.matches("</div>").count(), 3);
    assert!(joined.starts_with("<div><svg>one</svg>"));
    assert_eq!(joined.matches(DIVIDER).count(), 2);
}

#[test]
fn single_page_has_no_divider() {
    let pages = vec![String::from("<svg/>")];
    assert_eq!(join_pages(&pages), "<div><svg/></div>");
}

#[test]
fn no_pages_join_to_nothing() {
    let pages: Vec<String> = Vec::new();
    assert_eq!(join_pages(&pages), "");
}

#[test]
fn whitespace_only_source_reports_empty_source_without_invoking_the_engine() {
    let compiler = TypstCompiler::new().unwrap();
    let images: Vec<ImageEntry> = Vec::new();
    let r = compiler.compile_to_svg("   ", None, &images);
    assert!(matches!(r, Err(PipelineError::EmptySource)));
    let e = r.unwrap_err();
    assert_eq!(e.message(), "Source code is empty");
    let r2 = compiler.compile_to_pdf("\n \t", None, &images);
    assert!(matches!(r2, Err(PipelineError::EmptySource)));
}

#[test]
fn render_failure_message_is_surfaced_verbatim() {
    let e = PipelineError::RenderFailure(String::from("engine said no"));
    assert_eq!(e.message(), "engine said no");
}

#[test]
fn compiles_a_small_document_to_paged_markup() {
    let compiler = TypstCompiler::new().unwrap();
    let images: Vec<ImageEntry> = Vec::new();
    let svg = compiler.compile_to_svg("Hello, world.", None, &images).unwrap();
    // One page, wrapped once, no divider.
    assert!(svg.starts_with("<div><svg"));
    assert!(svg.ends_with("</div>"));
    assert_eq!(svg.matches("</div>").count(), 1);
}

#[test]
fn compiles_a_small_document_to_pdf_bytes() {
    let compiler = TypstCompiler::new().unwrap();
    let images: Vec<ImageEntry> = Vec::new();
    let bytes = compiler.compile_to_pdf("Hello again.", None, &images).unwrap();
    assert!(bytes.starts_with(b"%PDF"));
}

#[test]
fn decoded_image_reaches_the_engine_under_its_identifier() {
    // A 1x1 PNG as a data URL, as the image table stores payloads.
    let png = "data:image/png;base64,iVBORw0KGgoAAAANSUhEUgAAAAEAAAABCAYAAAAfFcSJAAAADUlEQVR42mP8z8BQDwAEhQGAhKmMIQAAAABJRU5ErkJggg==";
    let compiler = TypstCompiler::new().unwrap();
    let images = vec![ImageEntry { id: String::from("001"), payload: String::from(png) }];
    let svg = compiler.compile_to_svg("#image(\"001\")", None, &images).unwrap();
    assert!(svg.starts_with("<div><svg"));
    // Without the decoded blob the same source must fail.
    let none: Vec<ImageEntry> = Vec::new();
    let r = compiler.compile_to_svg("#image(\"001\")", None, &none);
    assert!(matches!(r, Err(PipelineError::RenderFailure(_))));
}

#[test]
fn page_break_yields_two_containers() {
    let compiler = TypstCompiler::new().unwrap();
    let images: Vec<ImageEntry> = Vec::new();
    let svg = compiler.compile_to_svg("first\n#pagebreak()\nsecond", None, &images).unwrap();
    assert_eq!(svg.matches("</div>").count(), 2);
    assert_eq!(svg.matches(DIVIDER).count(), 1);
}
