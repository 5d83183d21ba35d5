//! The tag-aware scanner: it copies markup and opaque regions and hands every
//! run of prose to a transformer.

use crate::chars::{chars_end_with, ends_with, to_chars};
use crate::epub::EpubDocument;
use vstd::prelude::*;
use vstd::string::StringExecFns;

verus! {

/// A rewrite of one run of prose.
///
/// `rewritten` is the mathematical function that an implementation computes,
/// and `transform` returns exactly its value. An implementation states
/// `rewritten` itself: the default says nothing that a `transform` could be
/// proved to meet.
pub trait Transformer {
    /// What `transform` returns for `content`.
    open spec fn rewritten(&self, content: Seq<char>) -> Seq<char> {
        arbitrary()
    }

    /// Rewrites one run of prose.
    fn transform(&self, content: &str) -> (r: String)
        ensures
            r@ == self.rewritten(content@),
    ;
}

/// The function that `transformer` computes.
pub open spec fn rewrite_of<T: Transformer>(transformer: &T) -> spec_fn(Seq<char>) -> Seq<char> {
    |p: Seq<char>| transformer.rewritten(p)
}

/// One piece of a scanned document, in the order of the output.
pub enum Segment {
    /// A character of a tag or of an opaque region, copied as it is.
    Markup(char),
    /// A run of prose, handed to the transformer as a whole.
    Prose(Seq<char>),
}

/// The scanner's state after a prefix of the document.
pub struct Scan {
    /// Inside `<...>`.
    pub in_tag: bool,
    /// Inside a style or code region.
    pub opaque: bool,
    /// Every character copied so far, in order.
    pub copied: Seq<char>,
    /// The run of prose that is being collected.
    pub pending: Seq<char>,
    /// What has been settled so far.
    pub segments: Seq<Segment>,
}

/// The start of the tag that opens a style region.
pub open spec fn style_open() -> Seq<char> {
    seq!['<', 's', 't', 'y', 'l', 'e']
}

/// The start of the tag that closes a style region.
pub open spec fn style_close() -> Seq<char> {
    seq!['<', '/', 's', 't', 'y', 'l', 'e']
}

/// The start of the tag that opens a code region.
pub open spec fn code_open() -> Seq<char> {
    seq!['<', 'c', 'o', 'd', 'e']
}

/// The start of the tag that closes a code region.
pub open spec fn code_close() -> Seq<char> {
    seq!['<', '/', 'c', 'o', 'd', 'e']
}

/// The opaque flag once `copied` has received its newest character: the start
/// of a style or code tag sets it, the start of the closing tag clears it.
pub open spec fn next_opaque(opaque: bool, copied: Seq<char>) -> bool {
    if ends_with(copied, code_open()) {
        true
    } else if ends_with(copied, code_close()) {
        false
    } else if ends_with(copied, style_open()) {
        true
    } else if ends_with(copied, style_close()) {
        false
    } else {
        opaque
    }
}

/// Whether the scanner in state `s` copies `c` as it is.
pub open spec fn copies(s: Scan, c: char) -> bool {
    c == '<' || c == '>' || s.in_tag || s.opaque
}

/// The state before the first character.
pub open spec fn start() -> Scan {
    Scan {
        in_tag: false,
        opaque: false,
        copied: Seq::empty(),
        pending: Seq::empty(),
        segments: Seq::empty(),
    }
}

/// The state after one more character.
pub open spec fn step(s: Scan, c: char) -> Scan {
    let flush = c == '<' && s.pending.len() > 0 && !s.opaque;
    let segments = if flush {
        s.segments.push(Segment::Prose(s.pending))
    } else {
        s.segments
    };
    let pending = if flush {
        Seq::empty()
    } else {
        s.pending
    };
    let in_tag = if c == '<' {
        true
    } else if c == '>' {
        false
    } else {
        s.in_tag
    };
    if copies(s, c) {
        Scan {
            in_tag,
            opaque: next_opaque(s.opaque, s.copied.push(c)),
            copied: s.copied.push(c),
            pending,
            segments: segments.push(Segment::Markup(c)),
        }
    } else {
        Scan { in_tag, opaque: s.opaque, copied: s.copied, pending: pending.push(c), segments }
    }
}

/// The state after the whole of `input`.
pub open spec fn run(input: Seq<char>) -> Scan
    decreases input.len(),
{
    if input.len() == 0 {
        start()
    } else {
        step(run(input.drop_last()), input.last())
    }
}

/// The segments of a whole document: a run of prose that the document ends in
/// is settled too.
pub open spec fn settled(input: Seq<char>) -> Seq<Segment> {
    let s = run(input);
    if s.pending.len() > 0 {
        s.segments.push(Segment::Prose(s.pending))
    } else {
        s.segments
    }
}

/// The text of the segments, with every run of prose replaced by `f` of it.
pub open spec fn render(segments: Seq<Segment>, f: spec_fn(Seq<char>) -> Seq<char>) -> Seq<char>
    decreases segments.len(),
{
    if segments.len() == 0 {
        Seq::empty()
    } else {
        render(segments.drop_last(), f) + match segments.last() {
            Segment::Markup(c) => seq![c],
            Segment::Prose(p) => f(p),
        }
    }
}

/// Rendering one more segment appends its text.
pub proof fn lemma_render_push(
    segments: Seq<Segment>,
    last: Segment,
    f: spec_fn(Seq<char>) -> Seq<char>,
)
    ensures
        render(segments.push(last), f) == render(segments, f) + match last {
            Segment::Markup(c) => seq![c],
            Segment::Prose(p) => f(p),
        },
{
    assert(segments.push(last).drop_last() =~= segments);
}

/// What one copied character adds to the rendered text: the pending run,
/// rewritten, where the character settles it, and the character itself.
pub proof fn lemma_step_render(s: Scan, c: char, f: spec_fn(Seq<char>) -> Seq<char>)
    requires
        copies(s, c),
    ensures
        c == '<' && s.pending.len() > 0 && !s.opaque ==> render(step(s, c).segments, f) == render(
            s.segments,
            f,
        ) + f(s.pending) + seq![c],
        !(c == '<' && s.pending.len() > 0 && !s.opaque) ==> render(step(s, c).segments, f)
            == render(s.segments, f) + seq![c],
{
    if c == '<' && s.pending.len() > 0 && !s.opaque {
        lemma_render_push(s.segments, Segment::Prose(s.pending), f);
        lemma_render_push(s.segments.push(Segment::Prose(s.pending)), Segment::Markup(c), f);
    } else {
        lemma_render_push(s.segments, Segment::Markup(c), f);
    }
}

/// The last seven characters of `s`, or all of it where it has fewer.
pub open spec fn trailing(s: Seq<char>) -> Seq<char> {
    if s.len() <= 7 {
        s
    } else {
        s.skip(s.len() - 7)
    }
}

/// A pattern of at most seven characters ends `s` exactly when it ends the
/// trailing window of `s`.
pub proof fn lemma_trailing_ends_with(s: Seq<char>, pat: Seq<char>)
    requires
        pat.len() <= 7,
    ensures
        ends_with(trailing(s), pat) == ends_with(s, pat),
{
    let w = trailing(s);
    if s.len() >= pat.len() {
        assert(w.skip(w.len() - pat.len()) =~= s.skip(s.len() - pat.len()));
    }
}

/// Moves the window on by one copied character.
fn slide(window: &mut Vec<char>, c: char, Ghost(copied): Ghost<Seq<char>>)
    requires
        old(window)@ == trailing(copied),
    ensures
        final(window)@ == trailing(copied.push(c)),
{
    if window.len() == 7 {
        window.remove(0);
    }
    window.push(c);
    assert(window@ =~= trailing(copied.push(c)));
}

impl EpubDocument {
    /// Rewrites the prose of a document and copies everything else.
    ///
    /// The document is read once, character by character. A `<` opens a tag
    /// and a `>` closes it; the characters of a tag, every `>`, and every
    /// character of a style or code region are copied as they are. An opaque
    /// region begins where the copied characters end with `<style` or `<code`
    /// and ends where they end with `</style` or `</code`. All other
    /// characters are prose: a run of prose ends at the next `<` or at the end
    /// of the document, and is replaced by what the transformer makes of it.
    pub fn transform_html<T: Transformer>(content: &str, transformer: &T) -> (r: String)
        ensures
            r@ == render(settled(content@), rewrite_of(transformer)),
    {
        let input = to_chars(content);
        let ghost f = rewrite_of(transformer);
        let style_open: Vec<char> = vec!['<', 's', 't', 'y', 'l', 'e'];
        let style_close: Vec<char> = vec!['<', '/', 's', 't', 'y', 'l', 'e'];
        let code_open: Vec<char> = vec!['<', 'c', 'o', 'd', 'e'];
        let code_close: Vec<char> = vec!['<', '/', 'c', 'o', 'd', 'e'];
        let mut out = String::new();
        let mut text = String::new();
        let mut window: Vec<char> = Vec::new();
        let mut in_tag = false;
        let mut opaque = false;
        let mut i: usize = 0;
        proof {
            assert(input@.take(0) =~= Seq::<char>::empty());
            assert(style_open@ =~= self::style_open());
            assert(style_close@ =~= self::style_close());
            assert(code_open@ =~= self::code_open());
            assert(code_close@ =~= self::code_close());
        }
        while i < input.len()
            invariant
                i <= input.len(),
                input@ == content@,
                style_open@ == self::style_open(),
                style_close@ == self::style_close(),
                code_open@ == self::code_open(),
                code_close@ == self::code_close(),
                f == rewrite_of(transformer),
                in_tag == run(input@.take(i as int)).in_tag,
                opaque == run(input@.take(i as int)).opaque,
                window@ == trailing(run(input@.take(i as int)).copied),
                text@ == run(input@.take(i as int)).pending,
                out@ == render(run(input@.take(i as int)).segments, f),
            decreases input.len() - i,
        {
            let c = input[i];
            let ghost before = run(input@.take(i as int));
            proof {
                assert(input@.take(i + 1).drop_last() =~= input@.take(i as int));
                assert(run(input@.take(i + 1)) == step(before, c));
            }
            if c == '<' {
                in_tag = true;
                if !text.as_str().is_empty() && !opaque {
                    let styled = transformer.transform(text.as_str());
                    out.append(styled.as_str());
                    text = String::new();
                }
            } else if c == '>' {
                in_tag = false;
            }
            if in_tag || c == '>' || opaque {
                out.push(c);
                slide(&mut window, c, Ghost(before.copied));
                proof {
                    let copied = before.copied.push(c);
                    lemma_trailing_ends_with(copied, self::style_open());
                    lemma_trailing_ends_with(copied, self::style_close());
                    lemma_trailing_ends_with(copied, self::code_open());
                    lemma_trailing_ends_with(copied, self::code_close());
                    lemma_step_render(before, c, f);
                }
                if chars_end_with(&window, &style_open) {
                    opaque = true;
                } else if chars_end_with(&window, &style_close) {
                    opaque = false;
                }
                if chars_end_with(&window, &code_open) {
                    opaque = true;
                } else if chars_end_with(&window, &code_close) {
                    opaque = false;
                }
            } else {
                text.push(c);
            }
            i += 1;
        }
        proof {
            assert(input@.take(input.len() as int) =~= input@);
        }
        if !text.as_str().is_empty() {
            let styled = transformer.transform(text.as_str());
            out.append(styled.as_str());
            proof {
                lemma_render_push(run(input@).segments, Segment::Prose(run(input@).pending), f);
            }
        }
        out
    }
}

} // verus!
