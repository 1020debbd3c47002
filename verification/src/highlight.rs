//! Syntax highlighter.
//!
//! Renders an already-parsed, immutable syntax tree as nested, escaped
//! markup. A fixed, total classification table maps each node kind to a
//! token class (or none). A leaf's literal text is escaped and, when its
//! kind has a class, wrapped in one class-tagged span; a container's
//! children are rendered in order, concatenated, and wrapped the same way.
//! Stripping every tag from the output reproduces the source text with only
//! the five reserved characters replaced by their escape sequences, and all
//! spans are properly nested; see the lemmas at the end of this module.

use vstd::prelude::*;

verus! {

/// Kind tag of a syntax node, mirroring the markup language's token kinds
/// that the classification table distinguishes; every other kind is `Other`.
#[derive(Clone, Copy)]
pub enum TokenKind {
    LineComment,
    BlockComment,
    Hash,
    Star,
    Underscore,
    StrLit,
    IntLit,
    FloatLit,
    Heading,
    Raw,
    Math,
    MathIdent,
    Equation,
    FuncCall,
    Ident,
    Label,
    Ref,
    Plus,
    Minus,
    Slash,
    EqSign,
    EqEq,
    Other,
}

/// A token class that the highlighter can tag a span with.
#[derive(Clone, Copy)]
pub enum TokenClass {
    Comment,
    Keyword,
    Markup,
    StringLit,
    Number,
    Heading,
    Code,
    Math,
    Function,
    Label,
    Operator,
}

/// The fixed, total classification table.
pub open spec fn spec_class_of(k: TokenKind) -> Option<TokenClass> {
    match k {
        TokenKind::LineComment => Some(TokenClass::Comment),
        TokenKind::BlockComment => Some(TokenClass::Comment),
        TokenKind::Hash => Some(TokenClass::Keyword),
        TokenKind::Star => Some(TokenClass::Markup),
        TokenKind::Underscore => Some(TokenClass::Markup),
        TokenKind::StrLit => Some(TokenClass::StringLit),
        TokenKind::IntLit => Some(TokenClass::Number),
        TokenKind::FloatLit => Some(TokenClass::Number),
        TokenKind::Heading => Some(TokenClass::Heading),
        TokenKind::Raw => Some(TokenClass::Code),
        TokenKind::Math => Some(TokenClass::Math),
        TokenKind::MathIdent => Some(TokenClass::Math),
        TokenKind::Equation => Some(TokenClass::Math),
        TokenKind::FuncCall => Some(TokenClass::Function),
        TokenKind::Ident => Some(TokenClass::Function),
        TokenKind::Label => Some(TokenClass::Label),
        TokenKind::Ref => Some(TokenClass::Label),
        TokenKind::Plus => Some(TokenClass::Operator),
        TokenKind::Minus => Some(TokenClass::Operator),
        TokenKind::Slash => Some(TokenClass::Operator),
        TokenKind::EqSign => Some(TokenClass::Operator),
        TokenKind::EqEq => Some(TokenClass::Operator),
        TokenKind::Other => None,
    }
}

/// The class attribute text of a token class.
pub open spec fn class_name(c: TokenClass) -> Seq<char> {
    match c {
        TokenClass::Comment => seq!['c', 'o', 'm', 'm', 'e', 'n', 't'],
        TokenClass::Keyword => seq!['k', 'e', 'y', 'w', 'o', 'r', 'd'],
        TokenClass::Markup => seq!['m', 'a', 'r', 'k', 'u', 'p'],
        TokenClass::StringLit => seq!['s', 't', 'r', 'i', 'n', 'g'],
        TokenClass::Number => seq!['n', 'u', 'm', 'b', 'e', 'r'],
        TokenClass::Heading => seq!['h', 'e', 'a', 'd', 'i', 'n', 'g'],
        TokenClass::Code => seq!['c', 'o', 'd', 'e'],
        TokenClass::Math => seq!['m', 'a', 't', 'h'],
        TokenClass::Function => seq!['f', 'u', 'n', 'c', 't', 'i', 'o', 'n'],
        TokenClass::Label => seq!['l', 'a', 'b', 'e', 'l'],
        TokenClass::Operator => seq!['o', 'p', 'e', 'r', 'a', 't', 'o', 'r'],
    }
}

pub fn class_of(k: TokenKind) -> (c: Option<TokenClass>)
    ensures
        c == spec_class_of(k),
{
    match k {
        TokenKind::LineComment => Some(TokenClass::Comment),
        TokenKind::BlockComment => Some(TokenClass::Comment),
        TokenKind::Hash => Some(TokenClass::Keyword),
        TokenKind::Star => Some(TokenClass::Markup),
        TokenKind::Underscore => Some(TokenClass::Markup),
        TokenKind::StrLit => Some(TokenClass::StringLit),
        TokenKind::IntLit => Some(TokenClass::Number),
        TokenKind::FloatLit => Some(TokenClass::Number),
        TokenKind::Heading => Some(TokenClass::Heading),
        TokenKind::Raw => Some(TokenClass::Code),
        TokenKind::Math => Some(TokenClass::Math),
        TokenKind::MathIdent => Some(TokenClass::Math),
        TokenKind::Equation => Some(TokenClass::Math),
        TokenKind::FuncCall => Some(TokenClass::Function),
        TokenKind::Ident => Some(TokenClass::Function),
        TokenKind::Label => Some(TokenClass::Label),
        TokenKind::Ref => Some(TokenClass::Label),
        TokenKind::Plus => Some(TokenClass::Operator),
        TokenKind::Minus => Some(TokenClass::Operator),
        TokenKind::Slash => Some(TokenClass::Operator),
        TokenKind::EqSign => Some(TokenClass::Operator),
        TokenKind::EqEq => Some(TokenClass::Operator),
        TokenKind::Other => None,
    }
}

/// An immutable, already-parsed syntax tree: a leaf carries literal text, a
/// container carries its children in source order.
pub enum SyntaxTree {
    Leaf { kind: TokenKind, text: String },
    Container { kind: TokenKind, children: Vec<SyntaxTree> },
}

/// The source text a tree stands for: the concatenation of its leaves'
/// literal text in traversal order.
pub open spec fn flat_text(t: SyntaxTree) -> Seq<char>
    decreases t,
{
    match t {
        SyntaxTree::Leaf { kind, text } => text@,
        SyntaxTree::Container { kind, children } => flat_text_list(children@),
    }
}

pub open spec fn flat_text_list(ts: Seq<SyntaxTree>) -> Seq<char>
    decreases ts,
{
    if ts.len() == 0 {
        Seq::empty()
    } else {
        flat_text(ts.first()) + flat_text_list(ts.drop_first())
    }
}

/// Escaping of one character: each of the five reserved characters becomes
/// its escape sequence, in the priority ampersand first, so that escaped
/// ampersands are not re-escaped; every other character stands unchanged.
pub open spec fn escape_char(c: char) -> Seq<char> {
    if c == '&' {
        seq!['&', 'a', 'm', 'p', ';']
    } else if c == '<' {
        seq!['&', 'l', 't', ';']
    } else if c == '>' {
        seq!['&', 'g', 't', ';']
    } else if c == '"' {
        seq!['&', 'q', 'u', 'o', 't', ';']
    } else if c == '\'' {
        seq!['&', '#', '3', '9', ';']
    } else {
        seq![c]
    }
}

pub open spec fn escape_seq(s: Seq<char>) -> Seq<char>
    decreases s.len(),
{
    if s.len() == 0 {
        Seq::empty()
    } else {
        escape_char(s[0]) + escape_seq(s.drop_first())
    }
}

/// Number of nodes of a tree; the recursion measure of the executable
/// renderer.
pub open spec fn tree_size(t: SyntaxTree) -> nat
    decreases t,
{
    match t {
        SyntaxTree::Leaf { kind, text } => 1,
        SyntaxTree::Container { kind, children } => 1 + tree_size_list(children@),
    }
}

pub open spec fn tree_size_list(ts: Seq<SyntaxTree>) -> nat
    decreases ts,
{
    if ts.len() == 0 {
        0
    } else {
        tree_size(ts.first()) + tree_size_list(ts.drop_first())
    }
}

pub proof fn lemma_tree_size_list_elem(ts: Seq<SyntaxTree>, j: int)
    requires
        0 <= j < ts.len(),
    ensures
        tree_size(ts[j]) <= tree_size_list(ts),
    decreases ts.len(),
{
    if j == 0 {
        assert(ts.first() == ts[0]);
    } else {
        lemma_tree_size_list_elem(ts.drop_first(), j - 1);
        assert(ts.drop_first()[j - 1] == ts[j]);
    }
}

pub proof fn lemma_escape_concat(a: Seq<char>, b: Seq<char>)
    ensures
        escape_seq(a + b) == escape_seq(a) + escape_seq(b),
    decreases a.len(),
{
    if a.len() == 0 {
        assert(a + b =~= b);
        assert(escape_seq(a) + escape_seq(b) =~= escape_seq(b));
    } else {
        assert((a + b).drop_first() =~= a.drop_first() + b);
        lemma_escape_concat(a.drop_first(), b);
        assert((a + b)[0] == a[0]);
        assert(escape_char(a[0]) + (escape_seq(a.drop_first()) + escape_seq(b)) =~= (escape_char(
            a[0],
        ) + escape_seq(a.drop_first())) + escape_seq(b));
    }
}

pub proof fn lemma_escape_singleton(c: char)
    ensures
        escape_seq(seq![c]) == escape_char(c),
{
    let s = seq![c];
    assert(s.drop_first() =~= Seq::<char>::empty());
    assert(s[0] == c);
    assert(escape_seq(s) == escape_char(s[0]) + escape_seq(s.drop_first()));
    assert(escape_seq(Seq::<char>::empty()) == Seq::<char>::empty());
    assert(escape_char(c) + Seq::<char>::empty() =~= escape_char(c));
}

/// Relies on String::push: appends the given character to the end of the
/// string.
#[verifier::external_body]
pub(crate) fn push_char(s: &mut String, c: char)
    ensures
        final(s)@ == old(s)@ + seq![c],
{
    s.push(c);
}

/// Escapes the five reserved markup characters of a text, leaving every
/// other character unchanged.
pub fn html_escape(text: &str) -> (r: String)
    ensures
        r@ == escape_seq(text@),
{
    let n = text.unicode_len();
    let mut r = String::new();
    let mut i: usize = 0;
    while i < n
        invariant
            n == text@.len(),
            0 <= i <= n,
            r@ == escape_seq(text@.take(i as int)),
        decreases n - i,
    {
        let c = text.get_char(i);
        proof {
            lemma_escape_concat(text@.take(i as int), seq![c]);
            lemma_escape_singleton(c);
            assert(text@.take(i + 1) =~= text@.take(i as int) + seq![c]);
        }
        if c == '&' {
            r.append("&amp;");
            proof {
                reveal_strlit("&amp;");
                assert("&amp;"@ =~= escape_char(c));
            }
        } else if c == '<' {
            r.append("&lt;");
            proof {
                reveal_strlit("&lt;");
                assert("&lt;"@ =~= escape_char(c));
            }
        } else if c == '>' {
            r.append("&gt;");
            proof {
                reveal_strlit("&gt;");
                assert("&gt;"@ =~= escape_char(c));
            }
        } else if c == '"' {
            r.append("&quot;");
            proof {
                reveal_strlit("&quot;");
                assert("&quot;"@ =~= escape_char(c));
            }
        } else if c == '\'' {
            r.append("&#39;");
            proof {
                reveal_strlit("&#39;");
                assert("&#39;"@ =~= escape_char(c));
            }
        } else {
            push_char(&mut r, c);
            assert(seq![c] =~= escape_char(c));
        }
        i = i + 1;
    }
    proof {
        assert(text@.take(n as int) =~= text@);
    }
    r
}

/// One markup token of the highlighter's output: an opening span tag with a
/// class, a closing span tag, or one character of escaped text.
pub enum MarkTok {
    Open(TokenClass),
    Close,
    Text(char),
}

/// One character as a text token.
pub open spec fn text_tok(c: char) -> Seq<MarkTok> {
    seq![MarkTok::Text(c)]
}

/// Wraps the inner tokens in one class-tagged span, or leaves them bare when
/// the kind has no class.
pub open spec fn wrap_toks(cl: Option<TokenClass>, inner: Seq<MarkTok>) -> Seq<MarkTok> {
    match cl {
        Some(c) => seq![MarkTok::Open(c)] + inner + seq![MarkTok::Close],
        None => inner,
    }
}

/// The depth-first rendering of a tree as markup tokens: a leaf contributes
/// its escaped text, a container the concatenation of its children, each
/// wrapped in one span when its kind has a class.
pub open spec fn toks_of(t: SyntaxTree) -> Seq<MarkTok>
    decreases t,
{
    match t {
        SyntaxTree::Leaf { kind, text } => wrap_toks(spec_class_of(kind), char_toks(escape_seq(text@))),
        SyntaxTree::Container { kind, children } => wrap_toks(
            spec_class_of(kind),
            toks_of_list(children@),
        ),
    }
}

pub open spec fn toks_of_list(ts: Seq<SyntaxTree>) -> Seq<MarkTok>
    decreases ts,
{
    if ts.len() == 0 {
        Seq::empty()
    } else {
        toks_of(ts.first()) + toks_of_list(ts.drop_first())
    }
}

/// A whole tag: its body between one `<` and one `>`.
pub open spec fn tag_text(body: Seq<char>) -> Seq<char> {
    seq!['<'] + body + seq!['>']
}

/// The body of the opening tag of a class-tagged span.
pub open spec fn open_tag_body(c: TokenClass) -> Seq<char> {
    seq!['s', 'p', 'a', 'n', ' ', 'c', 'l', 'a', 's', 's', '=', '"'] + class_name(c) + seq!['"']
}

/// The opening tag of a class-tagged span.
pub open spec fn open_tag(c: TokenClass) -> Seq<char> {
    tag_text(open_tag_body(c))
}

/// The closing tag of a span.
pub open spec fn close_tag() -> Seq<char> {
    tag_text(seq!['/', 's', 'p', 'a', 'n'])
}

pub open spec fn render_tok(t: MarkTok) -> Seq<char> {
    match t {
        MarkTok::Open(c) => open_tag(c),
        MarkTok::Close => close_tag(),
        MarkTok::Text(ch) => seq![ch],
    }
}

/// The markup text of a token list.
pub open spec fn render_toks(ts: Seq<MarkTok>) -> Seq<char>
    decreases ts.len(),
{
    if ts.len() == 0 {
        Seq::empty()
    } else {
        render_tok(ts.first()) + render_toks(ts.drop_first())
    }
}

pub proof fn lemma_render_concat(a: Seq<MarkTok>, b: Seq<MarkTok>)
    ensures
        render_toks(a + b) == render_toks(a) + render_toks(b),
    decreases a.len(),
{
    if a.len() == 0 {
        assert(a + b =~= b);
        assert(render_toks(a) + render_toks(b) =~= render_toks(b));
    } else {
        assert((a + b).drop_first() =~= a.drop_first() + b);
        lemma_render_concat(a.drop_first(), b);
        assert((a + b).first() == a.first());
        assert(render_tok(a.first()) + (render_toks(a.drop_first()) + render_toks(b)) =~= (
        render_tok(a.first()) + render_toks(a.drop_first())) + render_toks(b));
    }
}

pub proof fn lemma_render_singleton(t: MarkTok)
    ensures
        render_toks(seq![t]) == render_tok(t),
{
    let s = seq![t];
    assert(s.drop_first() =~= Seq::<MarkTok>::empty());
    assert(s.first() == t);
    assert(render_toks(s) == render_tok(s.first()) + render_toks(s.drop_first()));
    assert(render_toks(Seq::<MarkTok>::empty()) == Seq::<char>::empty());
    assert(render_tok(t) + Seq::<char>::empty() =~= render_tok(t));
}

/// The given characters as text tokens, in order.
pub open spec fn char_toks(s: Seq<char>) -> Seq<MarkTok>
    decreases s.len(),
{
    if s.len() == 0 {
        Seq::empty()
    } else {
        text_tok(s[0]) + char_toks(s.drop_first())
    }
}

pub proof fn lemma_char_toks_unfold(s: Seq<char>)
    ensures
        s.len() == 0 ==> char_toks(s) == Seq::<MarkTok>::empty(),
        s.len() > 0 ==> char_toks(s) == text_tok(s[0]) + char_toks(s.drop_first()),
{
}

pub proof fn lemma_render_text_tok(c: char)
    ensures
        render_toks(text_tok(c)) == seq![c],
{
    lemma_render_singleton(MarkTok::Text(c));
    assert(text_tok(c) == seq![MarkTok::Text(c)]);
}

pub proof fn lemma_render_text_toks(s: Seq<char>)
    ensures
        render_toks(char_toks(s)) == s,
    decreases s.len(),
{
    if s.len() == 0 {
        assert(char_toks(s) == Seq::<MarkTok>::empty());
        assert(render_toks(Seq::<MarkTok>::empty()) == Seq::<char>::empty());
        assert(s =~= Seq::<char>::empty());
    } else {
        lemma_char_toks_unfold(s);
        lemma_render_text_tok(s[0]);
        lemma_render_text_toks(s.drop_first());
        lemma_render_concat(text_tok(s[0]), char_toks(s.drop_first()));
        assert(seq![s[0]] + s.drop_first() =~= s);
    }
}









fn append_class(out: &mut String, c: TokenClass)
    ensures
        final(out)@ == old(out)@ + class_name(c),
{
    match c {
        TokenClass::Comment => {
            out.append("comment");
            proof {
                reveal_strlit("comment");
                assert(out@ =~= old(out)@ + class_name(c));
            }
        },
        TokenClass::Keyword => {
            out.append("keyword");
            proof {
                reveal_strlit("keyword");
                assert(out@ =~= old(out)@ + class_name(c));
            }
        },
        TokenClass::Markup => {
            out.append("markup");
            proof {
                reveal_strlit("markup");
                assert(out@ =~= old(out)@ + class_name(c));
            }
        },
        TokenClass::StringLit => {
            out.append("string");
            proof {
                reveal_strlit("string");
                assert(out@ =~= old(out)@ + class_name(c));
            }
        },
        TokenClass::Number => {
            out.append("number");
            proof {
                reveal_strlit("number");
                assert(out@ =~= old(out)@ + class_name(c));
            }
        },
        TokenClass::Heading => {
            out.append("heading");
            proof {
                reveal_strlit("heading");
                assert(out@ =~= old(out)@ + class_name(c));
            }
        },
        TokenClass::Code => {
            out.append("code");
            proof {
                reveal_strlit("code");
                assert(out@ =~= old(out)@ + class_name(c));
            }
        },
        TokenClass::Math => {
            out.append("math");
            proof {
                reveal_strlit("math");
                assert(out@ =~= old(out)@ + class_name(c));
            }
        },
        TokenClass::Function => {
            out.append("function");
            proof {
                reveal_strlit("function");
                assert(out@ =~= old(out)@ + class_name(c));
            }
        },
        TokenClass::Label => {
            out.append("label");
            proof {
                reveal_strlit("label");
                assert(out@ =~= old(out)@ + class_name(c));
            }
        },
        TokenClass::Operator => {
            out.append("operator");
            proof {
                reveal_strlit("operator");
                assert(out@ =~= old(out)@ + class_name(c));
            }
        },
    }
}

fn append_open_tag(out: &mut String, c: TokenClass)
    ensures
        final(out)@ == old(out)@ + open_tag(c),
{
    out.append("<span class=\"");
    proof {
        reveal_strlit("<span class=\"");
    }
    append_class(out, c);
    out.append("\">");
    proof {
        reveal_strlit("\">");
        assert(out@ =~= old(out)@ + open_tag(c));
    }
}

fn append_close_tag(out: &mut String)
    ensures
        final(out)@ == old(out)@ + close_tag(),
{
    out.append("</span>");
    proof {
        reveal_strlit("</span>");
        assert(out@ =~= old(out)@ + close_tag());
    }
}

/// Renders one node into `out`: depth-first, children in order, one span per
/// classified node.
#[verifier::loop_isolation(false)]
pub fn highlight_node(t: &SyntaxTree, out: &mut String)
    ensures
        final(out)@ == old(out)@ + render_toks(toks_of(*t)),
    decreases tree_size(*t),
{
    match t {
        SyntaxTree::Leaf { kind, text } => {
            let esc = html_escape(text.as_str());
            match class_of(*kind) {
                Some(c) => {
                    append_open_tag(out, c);
                    out.append(esc.as_str());
                    append_close_tag(out);
                    proof {
                        lemma_render_text_toks(escape_seq(text@));
                        assert(toks_of(*t) =~= seq![MarkTok::Open(c)] + char_toks(
                            escape_seq(text@),
                        ) + seq![MarkTok::Close]);
                        lemma_render_concat(
                            seq![MarkTok::Open(c)] + char_toks(escape_seq(text@)),
                            seq![MarkTok::Close],
                        );
                        lemma_render_concat(seq![MarkTok::Open(c)], char_toks(escape_seq(text@)));
                        lemma_render_singleton(MarkTok::Open(c));
                        lemma_render_singleton(MarkTok::Close);
                        assert(out@ =~= old(out)@ + render_toks(toks_of(*t)));
                    }
                },
                None => {
                    out.append(esc.as_str());
                    proof {
                        lemma_render_text_toks(escape_seq(text@));
                        assert(out@ =~= old(out)@ + render_toks(toks_of(*t)));
                    }
                },
            }
        },
        SyntaxTree::Container { kind, children } => {
            let cl = class_of(*kind);
            match cl {
                Some(c) => {
                    append_open_tag(out, c);
                },
                None => {},
            }
            let ghost mid0 = out@;
            proof {
                assert(children@.take(0) =~= Seq::<SyntaxTree>::empty());
                assert(toks_of_list(Seq::<SyntaxTree>::empty()) == Seq::<MarkTok>::empty());
                assert(render_toks(Seq::<MarkTok>::empty()) == Seq::<char>::empty());
                assert(mid0 + Seq::<char>::empty() =~= mid0);
            }
            let mut j: usize = 0;
            while j < children.len()
                invariant
                    0 <= j <= children.len(),
                    out@ == mid0 + render_toks(toks_of_list(children@.take(j as int))),
                decreases children.len() - j,
            {
                proof {
                    lemma_toks_list_snoc(children@.take(j as int), children@[j as int]);
                    assert(children@.take(j + 1) =~= children@.take(j as int).push(
                        children@[j as int],
                    ));
                    lemma_render_concat(
                        toks_of_list(children@.take(j as int)),
                        toks_of(children@[j as int]),
                    );
                    lemma_tree_size_list_elem(children@, j as int);
                    assert(*t == SyntaxTree::Container { kind: *kind, children: *children });
                    assert(tree_size(*t) == 1 + tree_size_list(children@));
                    assert(tree_size(children@[j as int]) < tree_size(*t));
                }
                highlight_node(&children[j], out);
                proof {
                    assert(out@ =~= mid0 + render_toks(toks_of_list(children@.take(j + 1))));
                }
                j = j + 1;
            }
            proof {
                assert(children@.take(children@.len() as int) =~= children@);
            }
            match cl {
                Some(c) => {
                    append_close_tag(out);
                    proof {
                        assert(toks_of(*t) =~= seq![MarkTok::Open(c)] + toks_of_list(children@)
                            + seq![MarkTok::Close]);
                        lemma_render_concat(
                            seq![MarkTok::Open(c)] + toks_of_list(children@),
                            seq![MarkTok::Close],
                        );
                        lemma_render_concat(seq![MarkTok::Open(c)], toks_of_list(children@));
                        lemma_render_singleton(MarkTok::Open(c));
                        lemma_render_singleton(MarkTok::Close);
                        assert(out@ =~= old(out)@ + render_toks(toks_of(*t)));
                    }
                },
                None => {
                    proof {
                        assert(out@ =~= old(out)@ + render_toks(toks_of(*t)));
                    }
                },
            }
        },
    }
}

pub proof fn lemma_toks_list_snoc(ts: Seq<SyntaxTree>, t: SyntaxTree)
    ensures
        toks_of_list(ts.push(t)) == toks_of_list(ts) + toks_of(t),
    decreases ts.len(),
{
    let p = ts.push(t);
    if ts.len() == 0 {
        assert(p.first() == t);
        assert(p.drop_first() =~= Seq::<SyntaxTree>::empty());
        assert(toks_of_list(p) == toks_of(p.first()) + toks_of_list(p.drop_first()));
        assert(toks_of_list(Seq::<SyntaxTree>::empty()) == Seq::<MarkTok>::empty());
        assert(toks_of_list(ts) == Seq::<MarkTok>::empty());
        assert(toks_of(t) + Seq::<MarkTok>::empty() =~= toks_of(t));
        assert(Seq::<MarkTok>::empty() + toks_of(t) =~= toks_of(t));
    } else {
        assert(p.first() == ts.first());
        assert(p.drop_first() =~= ts.drop_first().push(t));
        lemma_toks_list_snoc(ts.drop_first(), t);
        assert(toks_of_list(p) == toks_of(p.first()) + toks_of_list(p.drop_first()));
        assert(toks_of_list(ts) == toks_of(ts.first()) + toks_of_list(ts.drop_first()));
        assert(toks_of(ts.first()) + (toks_of_list(ts.drop_first()) + toks_of(t)) =~= (toks_of(
            ts.first(),
        ) + toks_of_list(ts.drop_first())) + toks_of(t));
    }
}

/// The body of the preformatted-block tag that precedes the highlighted
/// nodes.
pub open spec fn pre_tag_body() -> Seq<char> {
    seq![
        'p',
        'r',
        'e',
        ' ',
        'c',
        'l',
        'a',
        's',
        's',
        '=',
        '"',
        't',
        'y',
        'p',
        's',
        't',
        '-',
        'h',
        'i',
        'g',
        'h',
        'l',
        'i',
        'g',
        'h',
        't',
        'e',
        'd',
        '"',
    ]
}

/// The fixed wrapper that precedes the highlighted nodes.
pub open spec fn pre_open() -> Seq<char> {
    tag_text(pre_tag_body()) + tag_text(seq!['c', 'o', 'd', 'e'])
}

/// The fixed wrapper that follows the highlighted nodes.
pub open spec fn pre_close() -> Seq<char> {
    tag_text(seq!['/', 'c', 'o', 'd', 'e']) + tag_text(seq!['/', 'p', 'r', 'e'])
}

/// Renders a whole parsed tree as one highlighted markup fragment, inside
/// the fixed preformatted-code wrapper.
pub fn highlight_typst(t: &SyntaxTree) -> (r: String)
    ensures
        r@ == pre_open() + render_toks(toks_of(*t)) + pre_close(),
{
    let mut out = String::new();
    out.append("<pre class=\"typst-highlighted\"><code>");
    proof {
        reveal_strlit("<pre class=\"typst-highlighted\"><code>");
        assert(out@ =~= pre_open());
    }
    highlight_node(t, &mut out);
    out.append("</code></pre>");
    proof {
        reveal_strlit("</code></pre>");
        assert(out@ =~= pre_open() + render_toks(toks_of(*t)) + pre_close());
    }
    out
}

/// The text a token contributes once every tag is dropped.
pub open spec fn tok_text(t: MarkTok) -> Seq<char> {
    match t {
        MarkTok::Open(c) => Seq::empty(),
        MarkTok::Close => Seq::empty(),
        MarkTok::Text(ch) => seq![ch],
    }
}

/// The text content of a token list: its text characters in order, with
/// every tag dropped.
pub open spec fn texts_of(ts: Seq<MarkTok>) -> Seq<char>
    decreases ts.len(),
{
    if ts.len() == 0 {
        Seq::empty()
    } else {
        tok_text(ts.first()) + texts_of(ts.drop_first())
    }
}

pub proof fn lemma_texts_unfold(ts: Seq<MarkTok>)
    ensures
        ts.len() == 0 ==> texts_of(ts) == Seq::<char>::empty(),
        ts.len() > 0 ==> texts_of(ts) == tok_text(ts.first()) + texts_of(ts.drop_first()),
{
}

pub proof fn lemma_texts_concat(a: Seq<MarkTok>, b: Seq<MarkTok>)
    ensures
        texts_of(a + b) == texts_of(a) + texts_of(b),
    decreases a.len(),
{
    lemma_texts_unfold(a + b);
    lemma_texts_unfold(a);
    if a.len() == 0 {
        assert(a + b =~= b);
        assert(texts_of(a) + texts_of(b) =~= texts_of(b));
    } else {
        assert((a + b).drop_first() =~= a.drop_first() + b);
        assert((a + b).first() == a.first());
        lemma_texts_concat(a.drop_first(), b);
        assert(tok_text(a.first()) + (texts_of(a.drop_first()) + texts_of(b)) =~= (tok_text(
            a.first(),
        ) + texts_of(a.drop_first())) + texts_of(b));
    }
}

pub proof fn lemma_texts_singleton(t: MarkTok)
    ensures
        texts_of(seq![t]) == tok_text(t),
{
    let s = seq![t];
    assert(s.first() == t);
    assert(s.drop_first() =~= Seq::<MarkTok>::empty());
    lemma_texts_unfold(s);
    lemma_texts_unfold(Seq::<MarkTok>::empty());
    assert(tok_text(t) + Seq::<char>::empty() =~= tok_text(t));
}

pub proof fn lemma_text_tok_unfold(c: char)
    ensures
        text_tok(c) == seq![MarkTok::Text(c)],
{
}

pub proof fn lemma_texts_text_tok(c: char)
    ensures
        texts_of(text_tok(c)) == seq![c],
{
    lemma_texts_singleton(MarkTok::Text(c));
    lemma_text_tok_unfold(c);
}

pub proof fn lemma_wrap_unfold(cl: Option<TokenClass>, inner: Seq<MarkTok>)
    ensures
        (cl matches Some(c) ==> wrap_toks(cl, inner) == seq![MarkTok::Open(c)] + inner + seq![
            MarkTok::Close,
        ]),
        cl is None ==> wrap_toks(cl, inner) == inner,
{
}

pub proof fn lemma_texts_wrap(cl: Option<TokenClass>, inner: Seq<MarkTok>)
    ensures
        texts_of(wrap_toks(cl, inner)) == texts_of(inner),
{
    lemma_wrap_unfold(cl, inner);
    match cl {
        Some(c) => {
            lemma_texts_concat(seq![MarkTok::Open(c)] + inner, seq![MarkTok::Close]);
            lemma_texts_concat(seq![MarkTok::Open(c)], inner);
            lemma_texts_singleton(MarkTok::Open(c));
            lemma_texts_singleton(MarkTok::Close);
            assert(Seq::<char>::empty() + texts_of(inner) =~= texts_of(inner));
            assert(texts_of(inner) + Seq::<char>::empty() =~= texts_of(inner));
        },
        None => {},
    }
}

pub proof fn lemma_escape_unfold(s: Seq<char>)
    ensures
        s.len() == 0 ==> escape_seq(s) == Seq::<char>::empty(),
        s.len() > 0 ==> escape_seq(s) == escape_char(s[0]) + escape_seq(s.drop_first()),
{
}

pub proof fn lemma_toks_of_unfold(t: SyntaxTree)
    ensures
        (t matches SyntaxTree::Leaf { kind, text } ==> toks_of(t) == wrap_toks(
            spec_class_of(kind),
            char_toks(escape_seq(text@)),
        )),
        (t matches SyntaxTree::Container { kind, children } ==> toks_of(t) == wrap_toks(
            spec_class_of(kind),
            toks_of_list(children@),
        )),
{
}

pub proof fn lemma_toks_of_list_unfold(ts: Seq<SyntaxTree>)
    ensures
        ts.len() == 0 ==> toks_of_list(ts) == Seq::<MarkTok>::empty(),
        ts.len() > 0 ==> toks_of_list(ts) == toks_of(ts.first()) + toks_of_list(ts.drop_first()),
{
}

pub proof fn lemma_flat_text_unfold(t: SyntaxTree)
    ensures
        (t matches SyntaxTree::Leaf { kind, text } ==> flat_text(t) == text@),
        (t matches SyntaxTree::Container { kind, children } ==> flat_text(t) == flat_text_list(
            children@,
        )),
{
}

pub proof fn lemma_flat_text_list_unfold(ts: Seq<SyntaxTree>)
    ensures
        ts.len() == 0 ==> flat_text_list(ts) == Seq::<char>::empty(),
        ts.len() > 0 ==> flat_text_list(ts) == flat_text(ts.first()) + flat_text_list(
            ts.drop_first(),
        ),
{
}

pub proof fn lemma_texts_char_toks(s: Seq<char>)
    ensures
        texts_of(char_toks(s)) == s,
    decreases s.len(),
{
    lemma_char_toks_unfold(s);
    if s.len() == 0 {
        lemma_texts_unfold(Seq::<MarkTok>::empty());
        assert(s =~= Seq::<char>::empty());
    } else {
        lemma_texts_text_tok(s[0]);
        lemma_texts_char_toks(s.drop_first());
        lemma_texts_concat(text_tok(s[0]), char_toks(s.drop_first()));
        assert(seq![s[0]] + s.drop_first() =~= s);
    }
}

/// The text content of a tree's rendering is exactly the escaped source
/// text: tags aside, no character is lost, added or reordered.
pub proof fn lemma_toks_of_texts(t: SyntaxTree)
    ensures
        texts_of(toks_of(t)) == escape_seq(flat_text(t)),
    decreases t,
{
    lemma_toks_of_unfold(t);
    lemma_flat_text_unfold(t);
    match t {
        SyntaxTree::Leaf { kind, text } => {
            lemma_texts_wrap(spec_class_of(kind), char_toks(escape_seq(text@)));
            lemma_texts_char_toks(escape_seq(text@));
        },
        SyntaxTree::Container { kind, children } => {
            lemma_texts_wrap(spec_class_of(kind), toks_of_list(children@));
            lemma_toks_of_list_texts(children@);
        },
    }
}

pub proof fn lemma_toks_of_list_texts(ts: Seq<SyntaxTree>)
    ensures
        texts_of(toks_of_list(ts)) == escape_seq(flat_text_list(ts)),
    decreases ts,
{
    lemma_toks_of_list_unfold(ts);
    lemma_flat_text_list_unfold(ts);
    if ts.len() == 0 {
        lemma_texts_unfold(Seq::<MarkTok>::empty());
        lemma_escape_unfold(Seq::<char>::empty());
    } else {
        lemma_toks_of_texts(ts.first());
        lemma_toks_of_list_texts(ts.drop_first());
        lemma_texts_concat(toks_of(ts.first()), toks_of_list(ts.drop_first()));
        lemma_escape_concat(flat_text(ts.first()), flat_text_list(ts.drop_first()));
    }
}

/// How a token changes the number of open spans.
pub open spec fn tok_delta(t: MarkTok) -> int {
    match t {
        MarkTok::Open(c) => 1,
        MarkTok::Close => -1,
        MarkTok::Text(ch) => 0,
    }
}

/// The number of open spans after the tokens, starting from `d` open spans.
pub open spec fn end_depth(ts: Seq<MarkTok>, d: int) -> int
    decreases ts.len(),
{
    if ts.len() == 0 {
        d
    } else {
        end_depth(ts.drop_first(), d + tok_delta(ts.first()))
    }
}

/// Starting from `d` open spans, no prefix of the tokens closes a span that
/// is not open.
pub open spec fn never_below_zero(ts: Seq<MarkTok>, d: int) -> bool
    decreases ts.len(),
{
    if ts.len() == 0 {
        true
    } else {
        d + tok_delta(ts.first()) >= 0 && never_below_zero(
            ts.drop_first(),
            d + tok_delta(ts.first()),
        )
    }
}

/// Every opening tag has exactly one matching closing tag, properly nested.
pub open spec fn balanced(ts: Seq<MarkTok>) -> bool {
    never_below_zero(ts, 0) && end_depth(ts, 0) == 0
}

pub proof fn lemma_depth_unfold(ts: Seq<MarkTok>, d: int)
    ensures
        ts.len() == 0 ==> end_depth(ts, d) == d && never_below_zero(ts, d),
        ts.len() > 0 ==> end_depth(ts, d) == end_depth(
            ts.drop_first(),
            d + tok_delta(ts.first()),
        ) && (never_below_zero(ts, d) <==> (d + tok_delta(ts.first()) >= 0 && never_below_zero(
            ts.drop_first(),
            d + tok_delta(ts.first()),
        ))),
{
}

pub proof fn lemma_depth_concat(a: Seq<MarkTok>, b: Seq<MarkTok>, d: int)
    ensures
        end_depth(a + b, d) == end_depth(b, end_depth(a, d)),
        never_below_zero(a + b, d) <==> (never_below_zero(a, d) && never_below_zero(
            b,
            end_depth(a, d),
        )),
    decreases a.len(),
{
    lemma_depth_unfold(a + b, d);
    lemma_depth_unfold(a, d);
    if a.len() == 0 {
        assert(a + b =~= b);
    } else {
        assert((a + b).drop_first() =~= a.drop_first() + b);
        assert((a + b).first() == a.first());
        lemma_depth_concat(a.drop_first(), b, d + tok_delta(a.first()));
    }
}

pub proof fn lemma_depth_singleton(t: MarkTok, d: int)
    ensures
        end_depth(seq![t], d) == d + tok_delta(t),
        never_below_zero(seq![t], d) <==> d + tok_delta(t) >= 0,
{
    let s = seq![t];
    assert(s.first() == t);
    assert(s.drop_first() =~= Seq::<MarkTok>::empty());
    lemma_depth_unfold(s, d);
    lemma_depth_unfold(Seq::<MarkTok>::empty(), d + tok_delta(t));
}

pub proof fn lemma_depth_text_tok(c: char, d: int)
    ensures
        end_depth(text_tok(c), d) == d,
        never_below_zero(text_tok(c), d) <==> d >= 0,
{
    lemma_depth_singleton(MarkTok::Text(c), d);
    assert(text_tok(c) == seq![MarkTok::Text(c)]);
}

pub proof fn lemma_char_toks_depth(s: Seq<char>, d: int)
    requires
        d >= 0,
    ensures
        never_below_zero(char_toks(s), d),
        end_depth(char_toks(s), d) == d,
    decreases s.len(),
{
    lemma_char_toks_unfold(s);
    if s.len() == 0 {
        lemma_depth_unfold(Seq::<MarkTok>::empty(), d);
    } else {
        lemma_depth_text_tok(s[0], d);
        lemma_char_toks_depth(s.drop_first(), d);
        lemma_depth_concat(text_tok(s[0]), char_toks(s.drop_first()), d);
    }
}

pub proof fn lemma_depth_wrap_some(c: TokenClass, inner: Seq<MarkTok>, d: int)
    requires
        d >= 0,
        never_below_zero(inner, d + 1),
        end_depth(inner, d + 1) == d + 1,
    ensures
        never_below_zero(wrap_toks(Some(c), inner), d),
        end_depth(wrap_toks(Some(c), inner), d) == d,
{
    lemma_wrap_unfold(Some(c), inner);
    let o = seq![MarkTok::Open(c)];
    let cl = seq![MarkTok::Close];
    lemma_depth_concat(o + inner, cl, d);
    lemma_depth_concat(o, inner, d);
    lemma_depth_singleton(MarkTok::Open(c), d);
    lemma_depth_singleton(MarkTok::Close, end_depth(o + inner, d));
}

/// The spans a tree's rendering opens are properly nested: starting with
/// `d` spans open, the rendering never closes a span that is not open and
/// leaves exactly `d` spans open.
pub proof fn lemma_toks_of_depth(t: SyntaxTree, d: int)
    requires
        d >= 0,
    ensures
        never_below_zero(toks_of(t), d),
        end_depth(toks_of(t), d) == d,
    decreases t,
{
    lemma_toks_of_unfold(t);
    match t {
        SyntaxTree::Leaf { kind, text } => {
            match spec_class_of(kind) {
                Some(c) => {
                    lemma_char_toks_depth(escape_seq(text@), d + 1);
                    lemma_depth_wrap_some(c, char_toks(escape_seq(text@)), d);
                },
                None => {
                    lemma_char_toks_depth(escape_seq(text@), d);
                    lemma_wrap_unfold(None, char_toks(escape_seq(text@)));
                },
            }
        },
        SyntaxTree::Container { kind, children } => {
            match spec_class_of(kind) {
                Some(c) => {
                    lemma_toks_of_list_depth(children@, d + 1);
                    lemma_depth_wrap_some(c, toks_of_list(children@), d);
                },
                None => {
                    lemma_toks_of_list_depth(children@, d);
                    lemma_wrap_unfold(None, toks_of_list(children@));
                },
            }
        },
    }
}

pub proof fn lemma_toks_of_list_depth(ts: Seq<SyntaxTree>, d: int)
    requires
        d >= 0,
    ensures
        never_below_zero(toks_of_list(ts), d),
        end_depth(toks_of_list(ts), d) == d,
    decreases ts,
{
    lemma_toks_of_list_unfold(ts);
    if ts.len() == 0 {
        lemma_depth_unfold(Seq::<MarkTok>::empty(), d);
    } else {
        lemma_toks_of_depth(ts.first(), d);
        lemma_toks_of_list_depth(ts.drop_first(), d);
        lemma_depth_concat(toks_of(ts.first()), toks_of_list(ts.drop_first()), d);
    }
}

/// The text has no closing angle bracket, so a scan for the end of a tag
/// runs past all of it.
pub open spec fn has_no_gt(s: Seq<char>) -> bool {
    forall|j: int| 0 <= j < s.len() ==> s[j] != '>'
}

/// The suffix after the first closing angle bracket, or nothing if there is
/// none.
pub open spec fn skip_past_gt(s: Seq<char>) -> Seq<char>
    decreases s.len(),
{
    if s.len() == 0 {
        s
    } else if s[0] == '>' {
        s.drop_first()
    } else {
        skip_past_gt(s.drop_first())
    }
}

pub proof fn lemma_skip_len(s: Seq<char>)
    ensures
        skip_past_gt(s).len() <= s.len(),
    decreases s.len(),
{
    if s.len() > 0 && s[0] != '>' {
        lemma_skip_len(s.drop_first());
    }
}

/// The text with every tag removed: a tag runs from a `<` to the next `>`.
pub open spec fn strip_tags(s: Seq<char>) -> Seq<char>
    decreases s.len(),
    via strip_tags_decreases
{
    if s.len() == 0 {
        s
    } else if s[0] == '<' {
        strip_tags(skip_past_gt(s.drop_first()))
    } else {
        seq![s[0]] + strip_tags(s.drop_first())
    }
}

#[via_fn]
proof fn strip_tags_decreases(s: Seq<char>) {
    if s.len() > 0 && s[0] == '<' {
        lemma_skip_len(s.drop_first());
    }
}

pub proof fn lemma_skip_unfold(s: Seq<char>)
    ensures
        s.len() == 0 ==> skip_past_gt(s) == s,
        s.len() > 0 && s[0] == '>' ==> skip_past_gt(s) == s.drop_first(),
        s.len() > 0 && s[0] != '>' ==> skip_past_gt(s) == skip_past_gt(s.drop_first()),
{
}

pub proof fn lemma_strip_unfold(s: Seq<char>)
    ensures
        s.len() == 0 ==> strip_tags(s) == s,
        s.len() > 0 && s[0] == '<' ==> strip_tags(s) == strip_tags(skip_past_gt(s.drop_first())),
        s.len() > 0 && s[0] != '<' ==> strip_tags(s) == seq![s[0]] + strip_tags(s.drop_first()),
{
}

pub proof fn lemma_skip_through(a: Seq<char>, b: Seq<char>)
    requires
        has_no_gt(a),
    ensures
        skip_past_gt(a + seq!['>'] + b) == b,
    decreases a.len(),
{
    if a.len() == 0 {
        let s = seq!['>'] + b;
        assert(a + seq!['>'] + b =~= s);
        assert(s[0] == '>');
        assert(s.drop_first() =~= b);
        lemma_skip_unfold(s);
    } else {
        let s = a + seq!['>'] + b;
        assert(s[0] == a[0]);
        assert(s.drop_first() =~= a.drop_first() + seq!['>'] + b);
        lemma_skip_unfold(s);
        assert forall|j: int| 0 <= j < a.drop_first().len() implies a.drop_first()[j] != '>' by {
            assert(a.drop_first()[j] == a[j + 1]);
        }
        lemma_skip_through(a.drop_first(), b);
    }
}

/// Removing a whole tag from the front of a text leaves the rest to strip.
pub proof fn lemma_strip_tag(body: Seq<char>, rest: Seq<char>)
    requires
        has_no_gt(body),
    ensures
        strip_tags(tag_text(body) + rest) == strip_tags(rest),
{
    let s = tag_text(body) + rest;
    assert(s[0] == '<');
    assert(s.drop_first() =~= body + seq!['>'] + rest);
    lemma_strip_unfold(s);
    lemma_skip_through(body, rest);
}

pub proof fn lemma_strip_text(ch: char, rest: Seq<char>)
    requires
        ch != '<',
    ensures
        strip_tags(seq![ch] + rest) == seq![ch] + strip_tags(rest),
{
    let s = seq![ch] + rest;
    assert(s[0] == ch);
    assert(s.drop_first() =~= rest);
    lemma_strip_unfold(s);
}

pub proof fn lemma_no_gt_concat(a: Seq<char>, b: Seq<char>)
    requires
        has_no_gt(a),
        has_no_gt(b),
    ensures
        has_no_gt(a + b),
{
    assert forall|j: int| 0 <= j < (a + b).len() implies (a + b)[j] != '>' by {
        if j < a.len() {
            assert((a + b)[j] == a[j]);
        } else {
            assert((a + b)[j] == b[j - a.len()]);
        }
    }
}

pub proof fn lemma_class_name_no_gt(c: TokenClass)
    ensures
        has_no_gt(class_name(c)),
{
}

pub proof fn lemma_open_tag_body_no_gt(c: TokenClass)
    ensures
        has_no_gt(open_tag_body(c)),
{
    lemma_class_name_no_gt(c);
    lemma_no_gt_concat(
        seq!['s', 'p', 'a', 'n', ' ', 'c', 'l', 'a', 's', 's', '=', '"'],
        class_name(c),
    );
    lemma_no_gt_concat(
        seq!['s', 'p', 'a', 'n', ' ', 'c', 'l', 'a', 's', 's', '=', '"'] + class_name(c),
        seq!['"'],
    );
}

/// Whether a token's text keeps the output scannable: a text character is
/// never an angle bracket (escaping already replaced those).
pub open spec fn tok_safe(t: MarkTok) -> bool {
    match t {
        MarkTok::Open(c) => true,
        MarkTok::Close => true,
        MarkTok::Text(ch) => ch != '<' && ch != '>',
    }
}

pub open spec fn toks_safe(ts: Seq<MarkTok>) -> bool {
    forall|k: int| 0 <= k < ts.len() ==> tok_safe(#[trigger] ts[k])
}

pub proof fn lemma_tok_safe_unfold(t: MarkTok)
    ensures
        (t matches MarkTok::Text(ch) ==> (tok_safe(t) <==> ch != '<' && ch != '>')),
        !(t is Text) ==> tok_safe(t),
{
}

pub proof fn lemma_toks_safe_concat(a: Seq<MarkTok>, b: Seq<MarkTok>)
    requires
        toks_safe(a),
        toks_safe(b),
    ensures
        toks_safe(a + b),
{
    assert forall|k: int| 0 <= k < (a + b).len() implies tok_safe((a + b)[k]) by {
        if k < a.len() {
            assert((a + b)[k] == a[k]);
        } else {
            assert((a + b)[k] == b[k - a.len()]);
        }
    }
}

pub proof fn lemma_toks_safe_singleton(t: MarkTok)
    requires
        tok_safe(t),
    ensures
        toks_safe(seq![t]),
{
    assert forall|k: int| 0 <= k < seq![t].len() implies tok_safe(seq![t][k]) by {
        assert(seq![t][k] == t);
    }
}

pub proof fn lemma_escape_char_safe(c: char)
    ensures
        forall|j: int|
            0 <= j < escape_char(c).len() ==> #[trigger] escape_char(c)[j] != '<' && escape_char(
                c,
            )[j] != '>',
{
}

pub proof fn lemma_text_tok_safe(c: char)
    requires
        c != '<',
        c != '>',
    ensures
        toks_safe(text_tok(c)),
{
    lemma_text_tok_unfold(c);
    lemma_tok_safe_unfold(MarkTok::Text(c));
    lemma_toks_safe_singleton(MarkTok::Text(c));
}

pub proof fn lemma_char_toks_safe(s: Seq<char>)
    requires
        forall|j: int| 0 <= j < s.len() ==> #[trigger] s[j] != '<' && s[j] != '>',
    ensures
        toks_safe(char_toks(s)),
    decreases s.len(),
{
    lemma_char_toks_unfold(s);
    if s.len() == 0 {
        assert(toks_safe(Seq::<MarkTok>::empty()));
    } else {
        lemma_text_tok_safe(s[0]);
        assert forall|j: int| 0 <= j < s.drop_first().len() implies #[trigger] s.drop_first()[j]
            != '<' && s.drop_first()[j] != '>' by {
            assert(s.drop_first()[j] == s[j + 1]);
        }
        lemma_char_toks_safe(s.drop_first());
        lemma_toks_safe_concat(text_tok(s[0]), char_toks(s.drop_first()));
    }
}

pub proof fn lemma_escape_safe(s: Seq<char>)
    ensures
        forall|j: int|
            0 <= j < escape_seq(s).len() ==> #[trigger] escape_seq(s)[j] != '<' && escape_seq(
                s,
            )[j] != '>',
    decreases s.len(),
{
    lemma_escape_unfold(s);
    if s.len() > 0 {
        lemma_escape_char_safe(s[0]);
        lemma_escape_safe(s.drop_first());
        let a = escape_char(s[0]);
        let b = escape_seq(s.drop_first());
        assert forall|j: int| 0 <= j < (a + b).len() implies #[trigger] (a + b)[j] != '<' && (a
            + b)[j] != '>' by {
            if j < a.len() {
                assert((a + b)[j] == a[j]);
            } else {
                assert((a + b)[j] == b[j - a.len()]);
            }
        }
    }
}

pub proof fn lemma_wrap_safe(cl: Option<TokenClass>, inner: Seq<MarkTok>)
    requires
        toks_safe(inner),
    ensures
        toks_safe(wrap_toks(cl, inner)),
{
    lemma_wrap_unfold(cl, inner);
    match cl {
        Some(c) => {
            lemma_tok_safe_unfold(MarkTok::Open(c));
            lemma_tok_safe_unfold(MarkTok::Close);
            lemma_toks_safe_singleton(MarkTok::Open(c));
            lemma_toks_safe_singleton(MarkTok::Close);
            lemma_toks_safe_concat(seq![MarkTok::Open(c)], inner);
            lemma_toks_safe_concat(seq![MarkTok::Open(c)] + inner, seq![MarkTok::Close]);
        },
        None => {},
    }
}

pub proof fn lemma_toks_of_safe(t: SyntaxTree)
    ensures
        toks_safe(toks_of(t)),
    decreases t,
{
    lemma_toks_of_unfold(t);
    match t {
        SyntaxTree::Leaf { kind, text } => {
            lemma_escape_safe(text@);
            lemma_char_toks_safe(escape_seq(text@));
            lemma_wrap_safe(spec_class_of(kind), char_toks(escape_seq(text@)));
        },
        SyntaxTree::Container { kind, children } => {
            lemma_toks_of_list_safe(children@);
            lemma_wrap_safe(spec_class_of(kind), toks_of_list(children@));
        },
    }
}

pub proof fn lemma_toks_of_list_safe(ts: Seq<SyntaxTree>)
    ensures
        toks_safe(toks_of_list(ts)),
    decreases ts,
{
    lemma_toks_of_list_unfold(ts);
    if ts.len() == 0 {
        assert(toks_safe(Seq::<MarkTok>::empty()));
    } else {
        lemma_toks_of_safe(ts.first());
        lemma_toks_of_list_safe(ts.drop_first());
        lemma_toks_safe_concat(toks_of(ts.first()), toks_of_list(ts.drop_first()));
    }
}

pub proof fn lemma_render_unfold(ts: Seq<MarkTok>)
    ensures
        ts.len() == 0 ==> render_toks(ts) == Seq::<char>::empty(),
        ts.len() > 0 ==> render_toks(ts) == render_tok(ts.first()) + render_toks(ts.drop_first()),
{
}

pub proof fn lemma_render_tok_unfold(t: MarkTok)
    ensures
        (t matches MarkTok::Open(c) ==> render_tok(t) == open_tag(c)),
        t is Close ==> render_tok(t) == close_tag(),
        (t matches MarkTok::Text(ch) ==> render_tok(t) == seq![ch]),
{
}

pub proof fn lemma_open_tag_unfold(c: TokenClass)
    ensures
        open_tag(c) == tag_text(open_tag_body(c)),
{
}

pub proof fn lemma_close_tag_unfold()
    ensures
        close_tag() == tag_text(seq!['/', 's', 'p', 'a', 'n']),
{
}

pub proof fn lemma_close_body_no_gt()
    ensures
        has_no_gt(seq!['/', 's', 'p', 'a', 'n']),
{
}

/// Stripping the rendering of safe tokens followed by a tail yields their
/// text content followed by the stripped tail.
pub proof fn lemma_strip_render(ts: Seq<MarkTok>, tail: Seq<char>)
    requires
        toks_safe(ts),
    ensures
        strip_tags(render_toks(ts) + tail) == texts_of(ts) + strip_tags(tail),
    decreases ts.len(),
{
    lemma_render_unfold(ts);
    lemma_texts_unfold(ts);
    if ts.len() == 0 {
        assert(render_toks(ts) + tail =~= tail);
        assert(texts_of(ts) + strip_tags(tail) =~= strip_tags(tail));
    } else {
        let first = ts.first();
        let r = render_toks(ts.drop_first());
        assert(tok_safe(first));
        assert forall|k: int| 0 <= k < ts.drop_first().len() implies tok_safe(
            #[trigger] ts.drop_first()[k],
        ) by {
            assert(ts.drop_first()[k] == ts[k + 1]);
        }
        lemma_strip_render(ts.drop_first(), tail);
        lemma_render_tok_unfold(first);
        lemma_tok_safe_unfold(first);
        match first {
            MarkTok::Open(c) => {
                lemma_open_tag_unfold(c);
                lemma_open_tag_body_no_gt(c);
                assert((open_tag(c) + r) + tail =~= tag_text(open_tag_body(c)) + (r + tail));
                lemma_strip_tag(open_tag_body(c), r + tail);
                assert(texts_of(ts) =~= texts_of(ts.drop_first()));
            },
            MarkTok::Close => {
                lemma_close_tag_unfold();
                lemma_close_body_no_gt();
                assert((close_tag() + r) + tail =~= tag_text(seq!['/', 's', 'p', 'a', 'n']) + (r
                    + tail));
                lemma_strip_tag(seq!['/', 's', 'p', 'a', 'n'], r + tail);
                assert(texts_of(ts) =~= texts_of(ts.drop_first()));
            },
            MarkTok::Text(ch) => {
                assert((seq![ch] + r) + tail =~= seq![ch] + (r + tail));
                lemma_strip_text(ch, r + tail);
                assert(seq![ch] + (texts_of(ts.drop_first()) + strip_tags(tail)) =~= (seq![ch]
                    + texts_of(ts.drop_first())) + strip_tags(tail));
            },
        }
    }
}

pub proof fn lemma_pre_body_no_gt()
    ensures
        has_no_gt(pre_tag_body()),
        has_no_gt(seq!['c', 'o', 'd', 'e']),
        has_no_gt(seq!['/', 'c', 'o', 'd', 'e']),
        has_no_gt(seq!['/', 'p', 'r', 'e']),
{
}

/// The highlighter is faithful to the source text: stripping every tag from
/// its output reproduces the source with only the five reserved characters
/// replaced by their escape sequences, and the class-tagged spans are
/// balanced — every opening tag has exactly one matching closing tag,
/// properly nested.
pub proof fn lemma_highlight_faithful(t: SyntaxTree)
    ensures
        strip_tags(pre_open() + render_toks(toks_of(t)) + pre_close()) == escape_seq(flat_text(t)),
        strip_tags(render_toks(toks_of(t))) == escape_seq(flat_text(t)),
        balanced(toks_of(t)),
{
    lemma_toks_of_safe(t);
    lemma_toks_of_texts(t);
    lemma_toks_of_depth(t, 0);
    lemma_pre_body_no_gt();
    let body = render_toks(toks_of(t));
    let texts = texts_of(toks_of(t));
    lemma_strip_unfold(Seq::<char>::empty());
    lemma_strip_tag(seq!['/', 'c', 'o', 'd', 'e'], tag_text(seq!['/', 'p', 'r', 'e']));
    assert(tag_text(seq!['/', 'p', 'r', 'e']) =~= tag_text(seq!['/', 'p', 'r', 'e'])
        + Seq::<char>::empty());
    lemma_strip_tag(seq!['/', 'p', 'r', 'e'], Seq::<char>::empty());
    assert(strip_tags(pre_close()) == Seq::<char>::empty());
    lemma_strip_render(toks_of(t), pre_close());
    assert(texts + Seq::<char>::empty() =~= texts);
    assert(pre_open() + body + pre_close() =~= tag_text(pre_tag_body()) + (tag_text(
        seq!['c', 'o', 'd', 'e'],
    ) + (body + pre_close())));
    lemma_strip_tag(pre_tag_body(), tag_text(seq!['c', 'o', 'd', 'e']) + (body + pre_close()));
    lemma_strip_tag(seq!['c', 'o', 'd', 'e'], body + pre_close());
    assert(body =~= body + Seq::<char>::empty());
    lemma_strip_render(toks_of(t), Seq::<char>::empty());
}

} // verus!
