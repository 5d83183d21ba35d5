//! The bionic-reading emphasis of words and of runs of text.

use crate::chars::{to_chars, to_string};
use crate::scanner::Transformer;
use vstd::prelude::*;

verus! {

/// Whether `c` is whitespace as Unicode defines it (White_Space).
pub open spec fn is_white_space(c: char) -> bool {
    let n = c as u32;
    ||| 0x09 <= n <= 0x0D
    ||| n == 0x20
    ||| n == 0x85
    ||| n == 0xA0
    ||| n == 0x1680
    ||| 0x2000 <= n <= 0x200A
    ||| n == 0x2028
    ||| n == 0x2029
    ||| n == 0x202F
    ||| n == 0x205F
    ||| n == 0x3000
}

/// `char::is_whitespace` tells whether the character is White_Space in
/// Unicode; the code points that are, are those that `is_white_space` lists.
pub assume_specification[ char::is_whitespace ](c: char) -> (r: bool)
    ensures
        r == is_white_space(c),
;

/// A word without any visible character: empty, or whitespace only.
pub open spec fn is_blank(w: Seq<char>) -> bool {
    forall|i: int| 0 <= i < w.len() ==> is_white_space(#[trigger] w[i])
}

/// The marker that opens the emphasis.
pub open spec fn bold_open() -> Seq<char> {
    seq!['<', 'b', '>']
}

/// The marker that closes the emphasis.
pub open spec fn bold_close() -> Seq<char> {
    seq!['<', '/', 'b', '>']
}

/// The emphasised form of one word: a blank word stays as it is, any other has
/// its first half, rounded down, wrapped in the bold markers.
pub open spec fn emphasized(w: Seq<char>) -> Seq<char> {
    if is_blank(w) {
        w
    } else {
        bold_open() + w.take(w.len() as int / 2) + bold_close() + w.skip(w.len() as int / 2)
    }
}

/// The tokens between the single spaces of `s`. A text without a space is one
/// token; two spaces in a row have an empty token between them.
pub open spec fn space_split(s: Seq<char>) -> Seq<Seq<char>>
    decreases s.len(),
{
    if s.len() == 0 {
        seq![Seq::empty()]
    } else {
        let init = space_split(s.drop_last());
        if s.last() == ' ' {
            init.push(Seq::empty())
        } else {
            init.drop_last().push(init.last().push(s.last()))
        }
    }
}

/// The emphasised tokens, with one space between neighbours.
pub open spec fn emphasized_join(tokens: Seq<Seq<char>>) -> Seq<char>
    decreases tokens.len(),
{
    if tokens.len() == 0 {
        Seq::empty()
    } else if tokens.len() == 1 {
        emphasized(tokens[0])
    } else {
        emphasized_join(tokens.drop_last()) + seq![' '] + emphasized(tokens.last())
    }
}

/// The bionic form of a run of text: every token between single spaces is
/// emphasised, and the spaces stay where they were.
pub open spec fn bionic_text(s: Seq<char>) -> Seq<char> {
    emphasized_join(space_split(s))
}

/// What has been written once all tokens of `tokens` but the last are done.
pub open spec fn joined_before_last(tokens: Seq<Seq<char>>) -> Seq<char> {
    if tokens.len() <= 1 {
        Seq::empty()
    } else {
        emphasized_join(tokens.drop_last()) + seq![' ']
    }
}

/// A split always has a last token.
pub proof fn lemma_space_split_nonempty(s: Seq<char>)
    ensures
        space_split(s).len() >= 1,
    decreases s.len(),
{
    if s.len() > 0 {
        lemma_space_split_nonempty(s.drop_last());
    }
}

/// The split law of the emphasis: a word with a visible character comes back
/// as the opening marker, its first `n / 2` characters, the closing marker and
/// its other characters, seven characters longer than it was; the two parts
/// between and after the markers are the word again. The empty word comes
/// back empty.
pub proof fn lemma_emphasized_split(w: Seq<char>)
    ensures
        !is_blank(w) ==> emphasized(w) == bold_open() + w.subrange(0, w.len() as int / 2)
            + bold_close() + w.subrange(w.len() as int / 2, w.len() as int),
        !is_blank(w) ==> emphasized(w).len() == w.len() + 7,
        w.subrange(0, w.len() as int / 2) + w.subrange(w.len() as int / 2, w.len() as int) == w,
        w.len() == 0 ==> emphasized(w) == w,
        is_blank(w) ==> emphasized(w) == w,
{
    assert(w.subrange(0, w.len() as int / 2) + w.subrange(w.len() as int / 2, w.len() as int)
        =~= w);
}

/// The tokens joined by single spaces, as they are.
pub open spec fn plain_join(tokens: Seq<Seq<char>>) -> Seq<char>
    decreases tokens.len(),
{
    if tokens.len() == 0 {
        Seq::empty()
    } else if tokens.len() == 1 {
        tokens[0]
    } else {
        plain_join(tokens.drop_last()) + seq![' '] + tokens.last()
    }
}

/// `space_split` cuts at the spaces and nowhere else: no token holds a space,
/// and the tokens joined by single spaces are the text again.
pub proof fn lemma_space_split_rejoins(s: Seq<char>)
    ensures
        space_split(s).len() >= 1,
        forall|k: int, j: int|
            0 <= k < space_split(s).len() && 0 <= j < space_split(s)[k].len()
                ==> #[trigger] space_split(s)[k][j] != ' ',
        plain_join(space_split(s)) == s,
    decreases s.len(),
{
    if s.len() == 0 {
        assert(plain_join(space_split(s)) =~= s);
    } else {
        let init = space_split(s.drop_last());
        lemma_space_split_rejoins(s.drop_last());
        let tokens = space_split(s);
        if s.last() == ' ' {
            assert(tokens.drop_last() =~= init);
            assert(plain_join(tokens) =~= plain_join(init) + seq![' ']);
            assert(plain_join(tokens) =~= s.drop_last().push(' '));
        } else {
            let grown = init.last().push(s.last());
            assert(tokens.drop_last() =~= init.drop_last());
            if init.len() == 1 {
                assert(plain_join(tokens) =~= plain_join(init).push(s.last()));
            } else {
                assert(plain_join(tokens) =~= plain_join(init.drop_last()) + seq![' ']
                    + grown);
                assert(plain_join(tokens) =~= plain_join(init).push(s.last()));
            }
            assert(plain_join(tokens) =~= s.drop_last().push(s.last()));
        }
        assert(s.drop_last().push(s.last()) =~= s);
    }
}

/// Whether every character of `w` is whitespace.
fn blank(w: &Vec<char>) -> (r: bool)
    ensures
        r == is_blank(w@),
{
    let mut i: usize = 0;
    while i < w.len()
        invariant
            i <= w.len(),
            forall|k: int| 0 <= k < i ==> is_white_space(#[trigger] w@[k]),
        decreases w.len() - i,
    {
        if !w[i].is_whitespace() {
            return false;
        }
        i += 1;
    }
    true
}

/// Appends `w[from..to]` to `out`.
fn push_range(out: &mut Vec<char>, w: &Vec<char>, from: usize, to: usize)
    requires
        from <= to <= w.len(),
    ensures
        final(out)@ == old(out)@ + w@.subrange(from as int, to as int),
{
    let mut i: usize = from;
    while i < to
        invariant
            from <= i <= to <= w.len(),
            out@ == old(out)@ + w@.subrange(from as int, i as int),
        decreases to - i,
    {
        out.push(w[i]);
        i += 1;
        assert(w@.subrange(from as int, i as int) =~= w@.subrange(from as int, i - 1).push(
            w@[i - 1],
        ));
    }
}

/// Appends the emphasised form of `w` to `out`.
fn emphasize_into(out: &mut Vec<char>, w: &Vec<char>)
    ensures
        final(out)@ == old(out)@ + emphasized(w@),
{
    let n = w.len();
    if blank(w) {
        push_range(out, w, 0, n);
        assert(w@.subrange(0, n as int) =~= w@);
    } else {
        let mid = n / 2;
        out.push('<');
        out.push('b');
        out.push('>');
        push_range(out, w, 0, mid);
        out.push('<');
        out.push('/');
        out.push('b');
        out.push('>');
        push_range(out, w, mid, n);
        assert(out@ =~= old(out)@ + emphasized(w@));
    }
}

/// The transformer that renders text in the bionic-reading format.
pub struct BionicTransformer;

impl BionicTransformer {
    /// A bionic transformer.
    pub fn new() -> (t: BionicTransformer) {
        BionicTransformer {  }
    }

    /// The emphasised form of one word.
    ///
    /// A word that is empty or holds only whitespace comes back unchanged. Any
    /// other word of `n` characters comes back as `<b>`, its first `n / 2`
    /// characters, `</b>` and the rest; a single character thus follows an
    /// empty pair of markers.
    pub fn bionic_word(word: &str) -> (r: String)
        ensures
            r@ == emphasized(word@),
    {
        let w = to_chars(word);
        let mut out: Vec<char> = Vec::new();
        emphasize_into(&mut out, &w);
        assert(out@ =~= emphasized(w@));
        to_string(&out)
    }

    /// The bionic form of a run of text.
    ///
    /// The text is cut at every single space, each token is emphasised as a
    /// word, and the tokens are joined by single spaces again. Tabs and line
    /// breaks do not separate tokens.
    pub fn bionic(text: &str) -> (r: String)
        ensures
            r@ == bionic_text(text@),
    {
        let s = to_chars(text);
        let mut out: Vec<char> = Vec::new();
        let mut cur: Vec<char> = Vec::new();
        let mut i: usize = 0;
        proof {
            assert(s@.take(0) =~= Seq::<char>::empty());
        }
        while i < s.len()
            invariant
                i <= s.len(),
                space_split(s@.take(i as int)).len() >= 1,
                cur@ == space_split(s@.take(i as int)).last(),
                out@ == joined_before_last(space_split(s@.take(i as int))),
            decreases s.len() - i,
        {
            let c = s[i];
            let ghost before = space_split(s@.take(i as int));
            proof {
                assert(s@.take(i + 1).drop_last() =~= s@.take(i as int));
                lemma_space_split_nonempty(s@.take(i + 1));
            }
            if c == ' ' {
                emphasize_into(&mut out, &cur);
                out.push(' ');
                cur = Vec::new();
                proof {
                    let after = space_split(s@.take(i + 1));
                    assert(after == before.push(Seq::empty()));
                    assert(after.drop_last() =~= before);
                    assert(out@ =~= emphasized_join(before) + seq![' ']);
                }
            } else {
                cur.push(c);
                proof {
                    let after = space_split(s@.take(i + 1));
                    assert(after == before.drop_last().push(before.last().push(c)));
                    assert(after.drop_last() =~= before.drop_last());
                }
            }
            i += 1;
        }
        proof {
            assert(s@.take(s.len() as int) =~= s@);
        }
        emphasize_into(&mut out, &cur);
        to_string(&out)
    }
}

impl Transformer for BionicTransformer {
    open spec fn rewritten(&self, content: Seq<char>) -> Seq<char> {
        bionic_text(content)
    }

    fn transform(&self, content: &str) -> (r: String) {
        Self::bionic(content)
    }
}

} // verus!
