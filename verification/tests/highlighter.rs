use typst_studio::highlight::{highlight_typst, html_escape, SyntaxTree, TokenKind};

fn leaf(kind: TokenKind, text: &str) -> SyntaxTree {
    SyntaxTree::Leaf { kind, text: String::from(text) }
}

fn container(kind: TokenKind, children: Vec<SyntaxTree>) -> SyntaxTree {
    SyntaxTree::Container { kind, children }
}

/// Removes every tag (a run from `<` to the next `>`) from a markup text.
fn strip_tags(s: &str) -> String {
    let mut out = String::new();
    let mut in_tag = false;
    for c in s.chars() {
        if in_tag {
            if c == '>' {
                in_tag = false;
            }
        } else if c == '<' {
            in_tag = true;
        } else {
            out.push(c);
        }
    }
    out
}

#[test]
fn escape_replaces_the_five_reserved_characters() {
    assert_eq!(html_escape("a&<>\"'b"), "a&amp;&lt;&gt;&quot;&#39;b");
}

#[test]
fn escape_leaves_ordinary_text_alone() {
    assert_eq!(html_escape("= Heading 123 $x$"), "= Heading 123 $x$");
}

#[test]
fn escaped_ampersands_are_not_re_escaped() {
    // The ampersand is replaced first, so the output of one escape run is
    // escaped literally, not double-interpreted.
    assert_eq!(html_escape("&amp;"), "&amp;amp;");
}

#[test]
fn classified_leaf_is_wrapped_in_one_span() {
    let t = leaf(TokenKind::Hash, "#");
    assert_eq!(
        highlight_typst(&t),
        "<pre class=\"typst-highlighted\"><code><span class=\"keyword\">#</span></code></pre>"
    );
}

#[test]
fn unclassified_leaf_is_emitted_bare() {
    let t = leaf(TokenKind::Other, "plain text");
    assert_eq!(
        highlight_typst(&t),
        "<pre class=\"typst-highlighted\"><code>plain text</code></pre>"
    );
}

#[test]
fn container_wraps_children_in_order() {
    let t = container(
        TokenKind::Heading,
        vec![leaf(TokenKind::EqSign, "="), leaf(TokenKind::Other, " Title")],
    );
    assert_eq!(
        highlight_typst(&t),
        "<pre class=\"typst-highlighted\"><code><span class=\"heading\"><span class=\"operator\">=</span> Title</span></code></pre>"
    );
}

#[test]
fn leaf_text_is_escaped_inside_spans() {
    let t = leaf(TokenKind::StrLit, "\"a<b\"");
    assert_eq!(
        highlight_typst(&t),
        "<pre class=\"typst-highlighted\"><code><span class=\"string\">&quot;a&lt;b&quot;</span></code></pre>"
    );
}

#[test]
fn stripping_tags_recovers_the_escaped_source() {
    // A nested tree holding every reserved character somewhere.
    let t = container(
        TokenKind::Other,
        vec![
            leaf(TokenKind::Hash, "#"),
            container(
                TokenKind::Equation,
                vec![leaf(TokenKind::Math, "a < b & c"), leaf(TokenKind::Other, "'\"")],
            ),
            leaf(TokenKind::Other, " rest>"),
        ],
    );
    let source = "#a < b & c'\" rest>";
    let rendered = highlight_typst(&t);
    assert_eq!(strip_tags(&rendered), html_escape(source));
}

#[test]
fn spans_are_balanced() {
    let t = container(
        TokenKind::Heading,
        vec![
            leaf(TokenKind::EqSign, "="),
            container(TokenKind::Equation, vec![leaf(TokenKind::MathIdent, "x")]),
        ],
    );
    let rendered = highlight_typst(&t);
    let opens = rendered.matches("<span class=").count();
    let closes = rendered.matches("</span>").count();
    // One span per classified node: heading, operator, equation, math ident.
    assert_eq!(opens, 4);
    assert_eq!(opens, closes);
}

#[test]
fn empty_container_renders_empty() {
    let t = container(TokenKind::Other, Vec::new());
    assert_eq!(highlight_typst(&t), "<pre class=\"typst-highlighted\"><code></code></pre>");
}
