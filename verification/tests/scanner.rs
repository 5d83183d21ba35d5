use berg::{BionicTransformer, EpubDocument, Transformer};

struct CapitalizeTransformer;

impl Transformer for CapitalizeTransformer {
    fn transform(&self, content: &str) -> String {
        content.to_uppercase()
    }
}

struct Bracket;

impl Transformer for Bracket {
    fn transform(&self, content: &str) -> String {
        format!("[{}]", content)
    }
}

struct Same;

impl Transformer for Same {
    fn transform(&self, content: &str) -> String {
        content.to_string()
    }
}

struct Nothing;

impl Transformer for Nothing {
    fn transform(&self, _content: &str) -> String {
        String::new()
    }
}

#[test]
fn capitalize() {
    let result = EpubDocument::transform_html(
        "<div><h1>hello <span>world</span><h1> <p>my name is taher</p></div>",
        &CapitalizeTransformer {},
    );

    assert_eq!(
        result,
        "<div><h1>HELLO <span>WORLD</span><h1> <p>MY NAME IS TAHER</p></div>"
    );
}

#[test]
fn bionic_html() {
    let result = EpubDocument::transform_html(
        "<div><h1>hello <span>world</span><h1> <p>my name is taher</p></div>",
        &BionicTransformer::new(),
    );

    assert_eq!(result, "<div><h1><b>he</b>llo <span><b>wo</b>rld</span><h1> <p><b>m</b>y <b>na</b>me <b>i</b>s <b>ta</b>her</p></div>");
}

#[test]
fn document_of_one_tag_is_unchanged() {
    assert_eq!(EpubDocument::transform_html("<br/>", &BionicTransformer::new()), "<br/>");
    assert_eq!(EpubDocument::transform_html("<br/>", &CapitalizeTransformer), "<br/>");
}

#[test]
fn empty_document_gives_empty_output() {
    assert_eq!(EpubDocument::transform_html("", &BionicTransformer::new()), "");
}

#[test]
fn prose_at_the_end_of_the_document_is_rewritten() {
    assert_eq!(EpubDocument::transform_html("<p>a</p>tail", &CapitalizeTransformer), "<p>A</p>TAIL");
    assert_eq!(EpubDocument::transform_html("plain", &CapitalizeTransformer), "PLAIN");
}

#[test]
fn each_run_of_prose_is_handed_over_as_a_whole() {
    assert_eq!(
        EpubDocument::transform_html("one<i>two three</i>four", &Bracket),
        "[one]<i>[two three]</i>[four]"
    );
}

#[test]
fn adjacent_tags_have_no_prose_between_them() {
    assert_eq!(EpubDocument::transform_html("<a><b></b></a>", &Bracket), "<a><b></b></a>");
}

#[test]
fn style_region_is_copied() {
    assert_eq!(
        EpubDocument::transform_html(
            "<p>red</p><style>p { color: red }</style><p>blue</p>",
            &CapitalizeTransformer,
        ),
        "<p>RED</p><style>p { color: red }</style><p>BLUE</p>"
    );
}

#[test]
fn code_region_is_copied() {
    assert_eq!(
        EpubDocument::transform_html(
            "see <code>let x = <b>1</b>;</code> here",
            &CapitalizeTransformer,
        ),
        "SEE <code>let x = <b>1</b>;</code> HERE"
    );
}

#[test]
fn tag_names_are_copied_with_their_attributes() {
    assert_eq!(
        EpubDocument::transform_html("<a href=\"x y\">link</a>", &BionicTransformer::new()),
        "<a href=\"x y\"><b>li</b>nk</a>"
    );
}

#[test]
fn markup_alone_is_left_when_prose_is_dropped() {
    assert_eq!(
        EpubDocument::transform_html("<div>hello <span>world</span></div>", &Nothing),
        "<div><span></span></div>"
    );
}

#[test]
fn markup_is_the_same_for_every_transformer() {
    let doc = "<h1>Title</h1><style>h1 { x }</style><p>some text</p>";
    let markup = EpubDocument::transform_html(doc, &Nothing);
    assert_eq!(markup, "<h1></h1><style>h1 { x }</style><p></p>");
    let upper = EpubDocument::transform_html(doc, &CapitalizeTransformer);
    assert_eq!(upper, "<h1>TITLE</h1><style>h1 { x }</style><p>SOME TEXT</p>");
}

#[test]
fn stray_closing_bracket_is_copied_at_once() {
    assert_eq!(EpubDocument::transform_html("ab>cd<e>", &Bracket), ">[abcd]<e>");
}

#[test]
fn unclosed_tag_is_copied_to_the_end() {
    assert_eq!(EpubDocument::transform_html("text<b unclosed", &CapitalizeTransformer), "TEXT<b unclosed");
}

#[test]
fn document_is_rebuilt_when_prose_is_left_as_it_is() {
    let doc = "<html><head><style>a > b { c: d }</style></head><body><p>one  two\tthree</p><code>x < y</code> end</body></html>";
    assert_eq!(EpubDocument::transform_html(doc, &Same), doc);
}

#[test]
fn prose_after_an_opaque_region_is_rewritten_again() {
    assert_eq!(
        EpubDocument::transform_html("<style>a</style>b<code>c</code>d", &CapitalizeTransformer),
        "<style>a</style>B<code>c</code>D"
    );
}

#[test]
fn every_character_is_used_once() {
    let doc = "<p>ab</p>cd<i>e</i>";
    let out = EpubDocument::transform_html(doc, &Bracket);
    assert_eq!(out, "<p>[ab]</p>[cd]<i>[e]</i>");
    let kept: String = out.chars().filter(|c| *c != '[' && *c != ']').collect();
    assert_eq!(kept, doc);
}

#[test]
fn whole_code_region_is_unchanged() {
    let doc = "<code>if a < b { x } else <i>y</i> \t done</code>";
    assert_eq!(EpubDocument::transform_html(doc, &CapitalizeTransformer), doc);
    assert_eq!(EpubDocument::transform_html(doc, &Nothing), doc);
}

#[test]
fn whole_style_region_is_unchanged() {
    let doc = "<style>p > a { color: red } /* <code note */</style>";
    assert_eq!(EpubDocument::transform_html(doc, &CapitalizeTransformer), doc);
    assert_eq!(EpubDocument::transform_html(doc, &Bracket), doc);
}

#[test]
fn no_empty_run_is_handed_over() {
    assert_eq!(
        EpubDocument::transform_html("<a></a>><b>x</b><c/>", &Bracket),
        "<a></a>><b>[x]</b><c/>"
    );
}
