//! What holds of every scan: the markup is kept, every character is used
//! once, opaque regions are copied, and the opaque flag goes by the trailing
//! content of the output.

use crate::chars::ends_with;
use crate::scanner::{
    code_close, code_open, copies, lemma_render_push, lemma_step_render, next_opaque, render, run,
    settled, step, style_close, style_open, Scan, Segment,
};
use vstd::prelude::*;

verus! {

/// The copied characters among the segments, in order.
pub open spec fn markup_of(segments: Seq<Segment>) -> Seq<char>
    decreases segments.len(),
{
    if segments.len() == 0 {
        Seq::empty()
    } else {
        markup_of(segments.drop_last()) + match segments.last() {
            Segment::Markup(c) => seq![c],
            Segment::Prose(_) => Seq::empty(),
        }
    }
}

/// The characters of the runs of prose among the segments, in order.
pub open spec fn prose_of(segments: Seq<Segment>) -> Seq<char>
    decreases segments.len(),
{
    if segments.len() == 0 {
        Seq::empty()
    } else {
        prose_of(segments.drop_last()) + match segments.last() {
            Segment::Markup(_) => Seq::empty(),
            Segment::Prose(p) => p,
        }
    }
}

/// The characters of `input` that the scanner copies, in order.
pub open spec fn kept_chars(input: Seq<char>) -> Seq<char>
    decreases input.len(),
{
    if input.len() == 0 {
        Seq::empty()
    } else if copies(run(input.drop_last()), input.last()) {
        kept_chars(input.drop_last()).push(input.last())
    } else {
        kept_chars(input.drop_last())
    }
}

/// The characters of `input` that the scanner takes for prose, in order.
pub open spec fn prose_chars(input: Seq<char>) -> Seq<char>
    decreases input.len(),
{
    if input.len() == 0 {
        Seq::empty()
    } else if copies(run(input.drop_last()), input.last()) {
        prose_chars(input.drop_last())
    } else {
        prose_chars(input.drop_last()).push(input.last())
    }
}

/// A sequence that ends with a pattern ends with the pattern's last character.
pub proof fn lemma_ends_with_last(s: Seq<char>, pat: Seq<char>)
    requires
        pat.len() > 0,
        ends_with(s, pat),
    ensures
        s.last() == pat.last(),
{
    assert(s.skip(s.len() - pat.len())[pat.len() - 1] == pat[pat.len() - 1]);
}

/// Copying a `>` never changes the opaque flag.
pub proof fn lemma_close_keeps_opaque(opaque: bool, copied: Seq<char>)
    ensures
        next_opaque(opaque, copied.push('>')) == opaque,
{
    let s = copied.push('>');
    if ends_with(s, code_open()) {
        lemma_ends_with_last(s, code_open());
    }
    if ends_with(s, code_close()) {
        lemma_ends_with_last(s, code_close());
    }
    if ends_with(s, style_open()) {
        lemma_ends_with_last(s, style_open());
    }
    if ends_with(s, style_close()) {
        lemma_ends_with_last(s, style_close());
    }
}

/// One step keeps what `lemma_run_partitions` states of every state.
pub proof fn lemma_step_partitions(s: Scan, c: char, kept: Seq<char>, prose: Seq<char>)
    requires
        s.copied == kept,
        markup_of(s.segments) == kept,
        prose_of(s.segments) + s.pending == prose,
        s.pending.len() > 0 ==> !s.in_tag && !s.opaque,
    ensures
        copies(s, c) ==> step(s, c).copied == kept.push(c) && markup_of(step(s, c).segments)
            == kept.push(c) && prose_of(step(s, c).segments) + step(s, c).pending == prose,
        !copies(s, c) ==> step(s, c).copied == kept && markup_of(step(s, c).segments) == kept
            && prose_of(step(s, c).segments) + step(s, c).pending == prose.push(c),
        step(s, c).pending.len() > 0 ==> !step(s, c).in_tag && !step(s, c).opaque,
{
    let after = step(s, c);
    let flush = c == '<' && s.pending.len() > 0 && !s.opaque;
    let flushed = if flush {
        s.segments.push(Segment::Prose(s.pending))
    } else {
        s.segments
    };
    if flush {
        assert(flushed.drop_last() =~= s.segments);
    }
    assert(markup_of(flushed) =~= markup_of(s.segments));
    if copies(s, c) {
        assert(after.segments.drop_last() =~= flushed);
        assert(markup_of(after.segments) =~= kept.push(c));
        assert(prose_of(after.segments) =~= prose_of(flushed));
        assert(prose_of(flushed) + after.pending =~= prose_of(s.segments) + s.pending);
        if c == '>' {
            lemma_close_keeps_opaque(s.opaque, s.copied);
        }
    } else {
        assert(prose_of(after.segments) + after.pending =~= (prose_of(s.segments)
            + s.pending).push(c));
    }
}

/// What the state after `input` holds: the copied characters are those that
/// `kept_chars` selects, the settled and pending prose together are those that
/// `prose_chars` selects, and prose is only collected outside tags and opaque
/// regions.
pub proof fn lemma_run_partitions(input: Seq<char>)
    ensures
        run(input).copied == kept_chars(input),
        markup_of(run(input).segments) == kept_chars(input),
        prose_of(run(input).segments) + run(input).pending == prose_chars(input),
        kept_chars(input).len() + prose_chars(input).len() == input.len(),
        run(input).pending.len() > 0 ==> !run(input).in_tag && !run(input).opaque,
    decreases input.len(),
{
    if input.len() == 0 {
        assert(prose_of(run(input).segments) + run(input).pending =~= prose_chars(input));
    } else {
        let before = input.drop_last();
        lemma_run_partitions(before);
        lemma_step_partitions(run(before), input.last(), kept_chars(before), prose_chars(before));
    }
}

/// The markup of a scanned document is the copied characters of the input,
/// unchanged and in their order: whatever the transformer does, the output is
/// rendered from segments whose markup is exactly `kept_chars(input)`.
pub proof fn lemma_markup_is_copied(input: Seq<char>)
    ensures
        markup_of(settled(input)) == kept_chars(input),
        render(settled(input), |p: Seq<char>| Seq::<char>::empty()) == kept_chars(input),
{
    lemma_run_partitions(input);
    let s = run(input);
    if s.pending.len() > 0 {
        assert(settled(input).drop_last() =~= s.segments);
        assert(markup_of(settled(input)) =~= markup_of(s.segments));
    }
    lemma_render_without_prose(settled(input));
}

/// Rendered with a transformer that returns nothing, the segments leave their
/// markup.
pub proof fn lemma_render_without_prose(segments: Seq<Segment>)
    ensures
        render(segments, |p: Seq<char>| Seq::<char>::empty()) == markup_of(segments),
    decreases segments.len(),
{
    if segments.len() > 0 {
        lemma_render_without_prose(segments.drop_last());
    }
}

/// Every character of the input lands in exactly one place: the copied ones
/// among the markup, all others in the runs of prose that the transformer
/// receives, each class in the order of the input.
pub proof fn lemma_every_character_once(input: Seq<char>)
    ensures
        markup_of(settled(input)) == kept_chars(input),
        prose_of(settled(input)) == prose_chars(input),
        kept_chars(input).len() + prose_chars(input).len() == input.len(),
{
    lemma_run_partitions(input);
    let s = run(input);
    if s.pending.len() > 0 {
        assert(settled(input).drop_last() =~= s.segments);
        assert(markup_of(settled(input)) =~= markup_of(s.segments));
    } else {
        assert(prose_of(s.segments) + s.pending =~= prose_of(s.segments));
    }
}

/// Inside an opaque region the next character, whatever it is, is copied and
/// no prose is handed to the transformer.
pub proof fn lemma_opaque_is_copied(doc: Seq<char>, c: char)
    requires
        run(doc).opaque,
    ensures
        run(doc.push(c)).segments == run(doc).segments.push(Segment::Markup(c)),
        run(doc.push(c)).copied == run(doc).copied.push(c),
        run(doc.push(c)).pending == run(doc).pending,
        run(doc).pending.len() == 0,
{
    lemma_run_partitions(doc);
    assert(doc.push(c).drop_last() =~= doc);
}

/// Where an opaque region begins and ends: the flag is set as soon as the
/// copied characters end with `<style` or `<code`, it is cleared only where
/// they end with `</style` or `</code`, and nothing else changes it.
pub proof fn lemma_opaque_region_bounds(doc: Seq<char>, c: char)
    requires
        copies(run(doc), c),
    ensures
        ends_with(run(doc.push(c)).copied, style_open()) || ends_with(
            run(doc.push(c)).copied,
            code_open(),
        ) ==> run(doc.push(c)).opaque,
        ends_with(run(doc.push(c)).copied, style_close()) || ends_with(
            run(doc.push(c)).copied,
            code_close(),
        ) ==> !run(doc.push(c)).opaque,
        !ends_with(run(doc.push(c)).copied, style_open()) && !ends_with(
            run(doc.push(c)).copied,
            code_open(),
        ) && !ends_with(run(doc.push(c)).copied, style_close()) && !ends_with(
            run(doc.push(c)).copied,
            code_close(),
        ) ==> run(doc.push(c)).opaque == run(doc).opaque,
{
    assert(doc.push(c).drop_last() =~= doc);
    let copied = run(doc.push(c)).copied;
    let n = copied.len() as int;
    if ends_with(copied, style_open()) && ends_with(copied, code_close()) {
        assert(copied.skip(n - 6)[4] == 'l');
        assert(copied.skip(n - 6)[4] == 'd');
    }
    if ends_with(copied, style_close()) && ends_with(copied, code_open()) {
        assert(copied.skip(n - 7)[5] == 'l');
        assert(copied.skip(n - 5)[3] == 'd');
    }
    if ends_with(copied, code_close()) && ends_with(copied, code_open()) {
        assert(copied.skip(n - 6)[1] == '/');
        assert(copied.skip(n - 5)[0] == '<');
    }
}

/// Outside tags and opaque regions a character other than `<` and `>` joins
/// the run of prose that the transformer will receive.
pub proof fn lemma_prose_is_collected(doc: Seq<char>, c: char)
    requires
        !run(doc).opaque,
        !run(doc).in_tag,
        c != '<',
        c != '>',
    ensures
        run(doc.push(c)).segments == run(doc).segments,
        run(doc.push(c)).pending == run(doc).pending.push(c),
        !run(doc.push(c)).opaque,
{
    assert(doc.push(c).drop_last() =~= doc);
}

/// The transformer that leaves every run of prose as it is.
pub open spec fn unchanged() -> spec_fn(Seq<char>) -> Seq<char> {
    |p: Seq<char>| p
}

/// One step keeps the rendered text and the pending run together equal to the
/// characters read, where no `>` arrives while prose is pending.
pub proof fn lemma_step_identity(s: Scan, c: char, read: Seq<char>)
    requires
        render(s.segments, unchanged()) + s.pending == read,
        s.pending.len() > 0 ==> !s.in_tag && !s.opaque,
        c == '>' ==> s.pending.len() == 0,
    ensures
        render(step(s, c).segments, unchanged()) + step(s, c).pending == read.push(c),
{
    let after = step(s, c);
    if copies(s, c) {
        lemma_step_render(s, c, unchanged());
        assert(render(after.segments, unchanged()) + after.pending =~= read.push(c));
    } else {
        assert(render(after.segments, unchanged()) + after.pending =~= read.push(c));
    }
}

/// Whether no `>` of `input` arrives while a run of prose is pending: every
/// `>` closes a tag, lies in an opaque region or follows markup directly.
pub open spec fn brackets_close_tags(input: Seq<char>) -> bool {
    forall|i: int|
        0 <= i < input.len() && input[i] == '>' ==> (#[trigger] run(input.take(i))).pending.len()
            == 0
}

/// With the transformer that changes nothing, the text rendered so far and
/// the pending run are the characters read.
pub proof fn lemma_identity_prefix(input: Seq<char>)
    requires
        brackets_close_tags(input),
    ensures
        render(run(input).segments, unchanged()) + run(input).pending == input,
    decreases input.len(),
{
    if input.len() == 0 {
        assert(render(run(input).segments, unchanged()) + run(input).pending =~= input);
    } else {
        let before = input.drop_last();
        assert forall|i: int| 0 <= i < before.len() && before[i] == '>' implies (#[trigger] run(
            before.take(i),
        )).pending.len() == 0 by {
            assert(before.take(i) =~= input.take(i));
        }
        lemma_identity_prefix(before);
        lemma_run_partitions(before);
        assert(input.take(input.len() - 1) =~= before);
        lemma_step_identity(run(before), input.last(), before);
        assert(before.push(input.last()) =~= input);
    }
}

/// A document in which every `>` closes a tag is rebuilt exactly by the
/// transformer that changes nothing: the scanner loses no character, adds
/// none and moves none.
pub proof fn lemma_identity_rebuilds(input: Seq<char>)
    requires
        brackets_close_tags(input),
    ensures
        render(settled(input), unchanged()) == input,
{
    lemma_identity_prefix(input);
    let s = run(input);
    if s.pending.len() > 0 {
        lemma_render_push(s.segments, Segment::Prose(s.pending), unchanged());
    } else {
        assert(render(s.segments, unchanged()) + s.pending =~= render(s.segments, unchanged()));
    }
}

/// The number of characters copied since the last `<`, that `<` included; 0
/// where no `<` was copied.
pub open spec fn since_open(copied: Seq<char>) -> nat
    decreases copied.len(),
{
    if copied.len() == 0 {
        0
    } else if copied.last() == '<' {
        1
    } else if since_open(copied.drop_last()) > 0 {
        since_open(copied.drop_last()) + 1
    } else {
        0
    }
}

/// The output and the copied characters end alike: from the last copied `<`
/// on they are the same, and before any `<` was copied they are equal.
pub open spec fn tails_agree(out: Seq<char>, copied: Seq<char>) -> bool {
    let n = since_open(copied) as int;
    if n == 0 {
        out == copied
    } else {
        &&& n <= out.len()
        &&& n <= copied.len()
        &&& out.skip(out.len() - n) == copied.skip(copied.len() - n)
        &&& copied[copied.len() - n] == '<'
    }
}

/// One step keeps the tails alike.
pub proof fn lemma_step_tails(s: Scan, c: char, f: spec_fn(Seq<char>) -> Seq<char>)
    requires
        tails_agree(render(s.segments, f), s.copied),
    ensures
        tails_agree(render(step(s, c).segments, f), step(s, c).copied),
{
    if copies(s, c) {
        lemma_step_render(s, c, f);
        let out = render(s.segments, f);
        let out2 = render(step(s, c).segments, f);
        let copied2 = s.copied.push(c);
        let n = since_open(s.copied) as int;
        assert(copied2.drop_last() =~= s.copied);
        assert(step(s, c).copied == copied2);
        if c == '<' {
            assert(since_open(copied2) == 1);
            assert(out2.last() == '<');
            assert(out2.skip(out2.len() - 1) =~= copied2.skip(copied2.len() - 1));
            assert(tails_agree(out2, copied2));
        } else if n > 0 {
            assert(since_open(copied2) == n + 1);
            assert(out2 == out.push(c));
            assert(copied2[copied2.len() - (n + 1)] == s.copied[s.copied.len() - n]);
            assert(out2.skip(out2.len() - (n + 1)) =~= out.skip(out.len() - n).push(c));
            assert(copied2.skip(copied2.len() - (n + 1)) =~= s.copied.skip(s.copied.len() - n).push(
                c,
            ));
            assert(tails_agree(out2, copied2));
        } else {
            assert(since_open(copied2) == 0);
            assert(out2 == out.push(c));
            assert(tails_agree(out2, copied2));
        }
    }
}

/// After every prefix of a document the output and the copied characters end
/// alike, whatever the transformer returns.
pub proof fn lemma_run_tails(doc: Seq<char>, f: spec_fn(Seq<char>) -> Seq<char>)
    ensures
        tails_agree(render(run(doc).segments, f), run(doc).copied),
    decreases doc.len(),
{
    if doc.len() > 0 {
        lemma_run_tails(doc.drop_last(), f);
        lemma_step_tails(run(doc.drop_last()), doc.last(), f);
    }
}

/// A pattern that begins with `<` and holds no other `<` ends the output
/// exactly when it ends the copied characters.
pub proof fn lemma_pattern_in_tail(out: Seq<char>, copied: Seq<char>, pat: Seq<char>)
    requires
        tails_agree(out, copied),
        pat.len() > 0,
        pat[0] == '<',
        forall|k: int| 0 < k < pat.len() ==> pat[k] != '<',
    ensures
        ends_with(out, pat) == ends_with(copied, pat),
{
    let n = since_open(copied) as int;
    let m = pat.len() as int;
    if n > 0 {
        let tail_out = out.skip(out.len() - n);
        let tail_copied = copied.skip(copied.len() - n);
        if m <= n {
            assert(out.skip(out.len() - m) =~= tail_out.skip(n - m));
            assert(copied.skip(copied.len() - m) =~= tail_copied.skip(n - m));
        } else {
            assert(tail_out[0] == tail_copied[0]);
            if out.len() >= m {
                assert(out.skip(out.len() - m)[m - n] == '<');
            }
            if copied.len() >= m {
                assert(copied.skip(copied.len() - m)[m - n] == '<');
            }
        }
    }
}

/// The opaque flag goes by the trailing content of the output: after every
/// copied character, the flag that the copied characters give is the one that
/// the text written so far gives, whatever the transformer has returned.
pub proof fn lemma_opaque_from_output(
    doc: Seq<char>,
    c: char,
    f: spec_fn(Seq<char>) -> Seq<char>,
)
    requires
        copies(run(doc), c),
    ensures
        run(doc.push(c)).opaque == next_opaque(
            run(doc).opaque,
            render(run(doc.push(c)).segments, f),
        ),
{
    let after = run(doc.push(c));
    let out = render(after.segments, f);
    assert(doc.push(c).drop_last() =~= doc);
    lemma_run_tails(doc.push(c), f);
    lemma_pattern_in_tail(out, after.copied, style_open());
    lemma_pattern_in_tail(out, after.copied, style_close());
    lemma_pattern_in_tail(out, after.copied, code_open());
    lemma_pattern_in_tail(out, after.copied, code_close());
}

/// Whether the copied characters, followed by `x`, never come to end with the
/// start of a closing style or code tag.
pub open spec fn stays_opaque(copied: Seq<char>, x: Seq<char>) -> bool {
    forall|j: int|
        0 < j <= x.len() ==> !ends_with(copied + #[trigger] x.take(j), style_close())
            && !ends_with(copied + x.take(j), code_close())
}

/// One character inside an opaque region: it is copied to the output, no
/// prose is settled or collected, and the region goes on unless the copied
/// characters now end with the start of a closing style or code tag.
pub proof fn lemma_opaque_step(doc: Seq<char>, c: char, f: spec_fn(Seq<char>) -> Seq<char>)
    requires
        run(doc).opaque,
    ensures
        run(doc.push(c)).pending.len() == 0,
        run(doc.push(c)).copied == run(doc).copied.push(c),
        prose_of(run(doc.push(c)).segments) == prose_of(run(doc).segments),
        render(run(doc.push(c)).segments, f) == render(run(doc).segments, f).push(c),
        !ends_with(run(doc).copied.push(c), style_close()) && !ends_with(
            run(doc).copied.push(c),
            code_close(),
        ) ==> run(doc.push(c)).opaque,
{
    lemma_opaque_is_copied(doc, c);
    lemma_opaque_region_bounds(doc, c);
    lemma_render_push(run(doc).segments, Segment::Markup(c), f);
    let grown = run(doc).segments.push(Segment::Markup(c));
    assert(grown.drop_last() =~= run(doc).segments);
    assert(prose_of(grown) =~= prose_of(run(doc).segments));
    assert(render(grown, f) =~= render(run(doc).segments, f).push(c));
}

/// A whole stretch of an opaque region is copied. Where the scanner is in an
/// opaque region after `doc`, and the text `x` that follows brings no start of
/// a closing style or code tag, the scanner is still in the region after `x`;
/// every character of `x` has been copied, none has been handed to the
/// transformer, and the output has grown by `x` itself, whatever the
/// transformer is.
pub proof fn lemma_opaque_region_is_copied(
    doc: Seq<char>,
    x: Seq<char>,
    f: spec_fn(Seq<char>) -> Seq<char>,
)
    requires
        run(doc).opaque,
        stays_opaque(run(doc).copied, x),
    ensures
        run(doc + x).opaque,
        run(doc + x).pending.len() == 0,
        run(doc + x).copied == run(doc).copied + x,
        prose_of(run(doc + x).segments) == prose_of(run(doc).segments),
        render(run(doc + x).segments, f) == render(run(doc).segments, f) + x,
    decreases x.len(),
{
    let copied = run(doc).copied;
    if x.len() == 0 {
        lemma_run_partitions(doc);
        assert(doc + x =~= doc);
        assert(copied + x =~= copied);
        assert(render(run(doc).segments, f) + x =~= render(run(doc).segments, f));
    } else {
        let init = x.drop_last();
        assert forall|j: int| 0 < j <= init.len() implies !ends_with(
            copied + #[trigger] init.take(j),
            style_close(),
        ) && !ends_with(copied + init.take(j), code_close()) by {
            assert(init.take(j) =~= x.take(j));
        }
        lemma_opaque_region_is_copied(doc, init, f);
        lemma_opaque_step(doc + init, x.last(), f);
        assert((doc + init).push(x.last()) =~= doc + x);
        assert(x.take(x.len() as int) =~= x);
        assert((copied + init).push(x.last()) =~= copied + x);
        assert((render(run(doc).segments, f) + init).push(x.last()) =~= render(
            run(doc).segments,
            f,
        ) + x);
    }
}

/// One copied character while no prose is pending: it goes to the output as
/// it is, and the flags move as the scanner's rules say.
pub proof fn lemma_copied_step(doc: Seq<char>, c: char, f: spec_fn(Seq<char>) -> Seq<char>)
    requires
        copies(run(doc), c),
        run(doc).pending.len() == 0,
    ensures
        run(doc.push(c)).pending.len() == 0,
        run(doc.push(c)).copied == run(doc).copied.push(c),
        run(doc.push(c)).in_tag == (c == '<' || (c != '>' && run(doc).in_tag)),
        run(doc.push(c)).opaque == next_opaque(run(doc).opaque, run(doc).copied.push(c)),
        render(run(doc.push(c)).segments, f) == render(run(doc).segments, f).push(c),
{
    assert(doc.push(c).drop_last() =~= doc);
    lemma_step_render(run(doc), c, f);
    assert(render(run(doc).segments, f) + seq![c] =~= render(run(doc).segments, f).push(c));
}

/// Whether `pat` occurs nowhere in `x`.
pub open spec fn free_of(x: Seq<char>, pat: Seq<char>) -> bool {
    forall|j: int| 0 <= j <= x.len() ==> !ends_with(#[trigger] x.take(j), pat)
}

/// The tag that opens a code region.
pub open spec fn code_tag() -> Seq<char> {
    seq!['<', 'c', 'o', 'd', 'e', '>']
}

/// The tag that closes a code region.
pub open spec fn code_end_tag() -> Seq<char> {
    seq!['<', '/', 'c', 'o', 'd', 'e', '>']
}

/// After the tag `<code>` the scanner is in an opaque region and has copied
/// the tag.
pub proof fn lemma_code_tag_opens(f: spec_fn(Seq<char>) -> Seq<char>)
    ensures
        run(code_tag()).opaque,
        run(code_tag()).pending.len() == 0,
        run(code_tag()).copied == code_tag(),
        render(run(code_tag()).segments, f) == code_tag(),
{
    let d0 = Seq::<char>::empty();
    let d1 = d0.push('<');
    let d2 = d1.push('c');
    let d3 = d2.push('o');
    let d4 = d3.push('d');
    let d5 = d4.push('e');
    let d6 = d5.push('>');
    lemma_copied_step(d0, '<', f);
    lemma_copied_step(d1, 'c', f);
    lemma_copied_step(d2, 'o', f);
    lemma_copied_step(d3, 'd', f);
    assert(!run(d4).opaque);
    assert(run(d4).in_tag);
    lemma_copied_step(d4, 'e', f);
    assert(run(d5).copied =~= code_open());
    assert(run(d5).copied.skip(0) =~= code_open());
    assert(run(d5).opaque);
    lemma_copied_step(d5, '>', f);
    lemma_close_keeps_opaque(run(d5).opaque, run(d5).copied);
    assert(d6 =~= code_tag());
    assert(run(d6).copied =~= code_tag());
    assert(render(run(d6).segments, f) =~= code_tag());
}

/// A character other than `e` keeps the scanner in its opaque region.
pub proof fn lemma_opaque_step_plain(doc: Seq<char>, c: char, f: spec_fn(Seq<char>) -> Seq<char>)
    requires
        run(doc).opaque,
        c != 'e',
    ensures
        run(doc.push(c)).opaque,
        run(doc.push(c)).pending.len() == 0,
        run(doc.push(c)).copied == run(doc).copied.push(c),
        render(run(doc.push(c)).segments, f) == render(run(doc).segments, f).push(c),
{
    let grown = run(doc).copied.push(c);
    if ends_with(grown, style_close()) {
        lemma_ends_with_last(grown, style_close());
    }
    if ends_with(grown, code_close()) {
        lemma_ends_with_last(grown, code_close());
    }
    lemma_opaque_step(doc, c, f);
}

/// A text that holds neither `</code` nor `</style` keeps the region that
/// `<code>` has opened.
pub proof fn lemma_code_body_stays_opaque(x: Seq<char>)
    requires
        free_of(x, code_close()),
        free_of(x, style_close()),
    ensures
        stays_opaque(code_tag(), x),
{
    let tag = code_tag();
    assert forall|j: int| 0 < j <= x.len() implies !ends_with(
        tag + #[trigger] x.take(j),
        style_close(),
    ) && !ends_with(tag + x.take(j), code_close()) by {
        let t = x.take(j);
        let w = tag + t;
        if ends_with(w, code_close()) {
            let m = 6int;
            if j >= m {
                assert(w.skip(w.len() - m) =~= t.skip(t.len() - m));
            } else {
                assert(w.skip(w.len() - m)[0] == w[j]);
                assert(w[j] == tag[j]);
            }
        }
        if ends_with(w, style_close()) {
            let m = 7int;
            if j >= m {
                assert(w.skip(w.len() - m) =~= t.skip(t.len() - m));
            } else {
                assert(w.skip(w.len() - m)[0] == w[j - 1]);
                assert(w.skip(w.len() - m)[1] == w[j]);
                assert(w[j - 1] == tag[j - 1]);
                if j == 1 {
                    assert(w[1] == tag[1]);
                }
            }
        }
    }
}

/// Inside an opaque region the tag `</code>` is copied, and no prose is
/// pending after it.
pub proof fn lemma_code_end_copied(doc: Seq<char>, f: spec_fn(Seq<char>) -> Seq<char>)
    requires
        run(doc).opaque,
    ensures
        run(doc + code_end_tag()).pending.len() == 0,
        render(run(doc + code_end_tag()).segments, f) == render(run(doc).segments, f)
            + code_end_tag(),
{
    let d1 = doc.push('<');
    let d2 = d1.push('/');
    let d3 = d2.push('c');
    let d4 = d3.push('o');
    let d5 = d4.push('d');
    let d6 = d5.push('e');
    let d7 = d6.push('>');
    lemma_opaque_step_plain(doc, '<', f);
    lemma_opaque_step_plain(d1, '/', f);
    lemma_opaque_step_plain(d2, 'c', f);
    lemma_opaque_step_plain(d3, 'o', f);
    lemma_opaque_step_plain(d4, 'd', f);
    lemma_opaque_step(d5, 'e', f);
    lemma_copied_step(d6, '>', f);
    assert(d7 =~= doc + code_end_tag());
    assert(render(run(d7).segments, f) =~= render(run(doc).segments, f) + code_end_tag());
}

/// A code region is left as it is: a document that is `<code>`, a text that
/// holds neither `</code` nor `</style`, and `</code>` comes out unchanged,
/// whatever the transformer is.
pub proof fn lemma_code_region_unchanged(x: Seq<char>, f: spec_fn(Seq<char>) -> Seq<char>)
    requires
        free_of(x, code_close()),
        free_of(x, style_close()),
    ensures
        render(settled(code_tag() + x + code_end_tag()), f) == code_tag() + x + code_end_tag(),
{
    lemma_code_tag_opens(f);
    lemma_code_body_stays_opaque(x);
    lemma_opaque_region_is_copied(code_tag(), x, f);
    lemma_code_end_copied(code_tag() + x, f);
}

/// The tag that opens a style region.
pub open spec fn style_tag() -> Seq<char> {
    seq!['<', 's', 't', 'y', 'l', 'e', '>']
}

/// The tag that closes a style region.
pub open spec fn style_end_tag() -> Seq<char> {
    seq!['<', '/', 's', 't', 'y', 'l', 'e', '>']
}

/// After the tag `<style>` the scanner is in an opaque region and has copied
/// the tag.
pub proof fn lemma_style_tag_opens(f: spec_fn(Seq<char>) -> Seq<char>)
    ensures
        run(style_tag()).opaque,
        run(style_tag()).pending.len() == 0,
        run(style_tag()).copied == style_tag(),
        render(run(style_tag()).segments, f) == style_tag(),
{
    let d0 = Seq::<char>::empty();
    let d1 = d0.push('<');
    let d2 = d1.push('s');
    let d3 = d2.push('t');
    let d4 = d3.push('y');
    let d5 = d4.push('l');
    let d6 = d5.push('e');
    let d7 = d6.push('>');
    lemma_copied_step(d0, '<', f);
    lemma_copied_step(d1, 's', f);
    lemma_copied_step(d2, 't', f);
    lemma_copied_step(d3, 'y', f);
    assert(run(d4).in_tag);
    lemma_copied_step(d4, 'l', f);
    lemma_copied_step(d5, 'e', f);
    let copied = run(d6).copied;
    assert(copied =~= style_open());
    assert(copied.skip(0) =~= style_open());
    if ends_with(copied, code_open()) {
        assert(copied.skip(1)[0] == 's');
    }
    if ends_with(copied, code_close()) {
        assert(copied.skip(0)[1] == 's');
    }
    assert(run(d6).opaque);
    lemma_copied_step(d6, '>', f);
    lemma_close_keeps_opaque(run(d6).opaque, run(d6).copied);
    assert(d7 =~= style_tag());
    assert(run(d7).copied =~= style_tag());
    assert(render(run(d7).segments, f) =~= style_tag());
}

/// A text that holds neither `</code` nor `</style` keeps the region that
/// `<style>` has opened.
pub proof fn lemma_style_body_stays_opaque(x: Seq<char>)
    requires
        free_of(x, code_close()),
        free_of(x, style_close()),
    ensures
        stays_opaque(style_tag(), x),
{
    let tag = style_tag();
    assert forall|j: int| 0 < j <= x.len() implies !ends_with(
        tag + #[trigger] x.take(j),
        style_close(),
    ) && !ends_with(tag + x.take(j), code_close()) by {
        let t = x.take(j);
        let w = tag + t;
        if ends_with(w, code_close()) {
            let m = 6int;
            if j >= m {
                assert(w.skip(w.len() - m) =~= t.skip(t.len() - m));
            } else {
                assert(w.skip(w.len() - m)[0] == w[j + 1]);
                assert(w[j + 1] == tag[j + 1]);
            }
        }
        if ends_with(w, style_close()) {
            let m = 7int;
            if j >= m {
                assert(w.skip(w.len() - m) =~= t.skip(t.len() - m));
            } else {
                assert(w.skip(w.len() - m)[0] == w[j]);
                assert(w[j] == tag[j]);
            }
        }
    }
}

/// Inside an opaque region the tag `</style>` is copied, and no prose is
/// pending after it.
pub proof fn lemma_style_end_copied(doc: Seq<char>, f: spec_fn(Seq<char>) -> Seq<char>)
    requires
        run(doc).opaque,
    ensures
        run(doc + style_end_tag()).pending.len() == 0,
        render(run(doc + style_end_tag()).segments, f) == render(run(doc).segments, f)
            + style_end_tag(),
{
    let d1 = doc.push('<');
    let d2 = d1.push('/');
    let d3 = d2.push('s');
    let d4 = d3.push('t');
    let d5 = d4.push('y');
    let d6 = d5.push('l');
    let d7 = d6.push('e');
    let d8 = d7.push('>');
    lemma_opaque_step_plain(doc, '<', f);
    lemma_opaque_step_plain(d1, '/', f);
    lemma_opaque_step_plain(d2, 's', f);
    lemma_opaque_step_plain(d3, 't', f);
    lemma_opaque_step_plain(d4, 'y', f);
    lemma_opaque_step_plain(d5, 'l', f);
    lemma_opaque_step(d6, 'e', f);
    lemma_copied_step(d7, '>', f);
    assert(d8 =~= doc + style_end_tag());
    assert(render(run(d8).segments, f) =~= render(run(doc).segments, f) + style_end_tag());
}

/// A style region is left as it is: a document that is `<style>`, a text that
/// holds neither `</code` nor `</style`, and `</style>` comes out unchanged,
/// whatever the transformer is.
pub proof fn lemma_style_region_unchanged(x: Seq<char>, f: spec_fn(Seq<char>) -> Seq<char>)
    requires
        free_of(x, code_close()),
        free_of(x, style_close()),
    ensures
        render(settled(style_tag() + x + style_end_tag()), f) == style_tag() + x
            + style_end_tag(),
{
    lemma_style_tag_opens(f);
    lemma_style_body_stays_opaque(x);
    lemma_opaque_region_is_copied(style_tag(), x, f);
    lemma_style_end_copied(style_tag() + x, f);
}

/// One step hands the transformer no empty run.
pub proof fn lemma_step_runs_nonempty(s: Scan, c: char)
    requires
        forall|k: int|
            0 <= k < s.segments.len() && #[trigger] s.segments[k] is Prose
                ==> s.segments[k]->Prose_0.len() > 0,
    ensures
        forall|k: int|
            0 <= k < step(s, c).segments.len() && #[trigger] step(s, c).segments[k] is Prose
                ==> step(s, c).segments[k]->Prose_0.len() > 0,
{
}

/// The transformer never receives an empty run: every run of prose among the
/// segments of a document holds at least one character.
pub proof fn lemma_runs_nonempty(input: Seq<char>)
    ensures
        forall|k: int|
            0 <= k < run(input).segments.len() && #[trigger] run(input).segments[k] is Prose
                ==> run(input).segments[k]->Prose_0.len() > 0,
        forall|k: int|
            0 <= k < settled(input).len() && #[trigger] settled(input)[k] is Prose ==> settled(
                input,
            )[k]->Prose_0.len() > 0,
    decreases input.len(),
{
    if input.len() > 0 {
        lemma_runs_nonempty(input.drop_last());
        lemma_step_runs_nonempty(run(input.drop_last()), input.last());
    }
}

} // verus!
