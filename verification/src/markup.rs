//! The shape of the bar's markup: plain text with blocks `%{...}` in it.
//!
//! A reader of the markup is in one of four modes. It reads text until a `%`
//! is followed by a `{`, which opens a block; the block runs to the next `}`,
//! and holds no `{` of its own.

use vstd::prelude::*;

verus! {

/// Where a reader of the markup stands.
#[derive(Clone, Copy, Debug, PartialEq, Eq)]
pub enum Mode {
    /// In text.
    Text,
    /// In text, behind a `%` that opens a block if a `{` follows.
    Percent,
    /// Inside a block.
    Block,
    /// Behind a `{` inside a block: what was read is no markup.
    Broken,
}

/// The mode behind the character `c`, read in the mode `m`.
pub open spec fn step(m: Mode, c: char) -> Mode {
    match m {
        Mode::Text => if c == '%' {
            Mode::Percent
        } else {
            Mode::Text
        },
        Mode::Percent => if c == '{' {
            Mode::Block
        } else if c == '%' {
            Mode::Percent
        } else {
            Mode::Text
        },
        Mode::Block => if c == '}' {
            Mode::Text
        } else if c == '{' {
            Mode::Broken
        } else {
            Mode::Block
        },
        Mode::Broken => Mode::Broken,
    }
}

/// The mode behind the text `t`, read from the mode `m` on.
pub open spec fn scan(m: Mode, t: Seq<char>) -> Mode
    decreases t.len(),
{
    if t.len() == 0 {
        m
    } else {
        step(scan(m, t.drop_last()), t.last())
    }
}

/// Well-formed markup: every block that the text opens is closed in it, and
/// none holds a `{`.
pub open spec fn well_formed(t: Seq<char>) -> bool {
    scan(Mode::Text, t) == Mode::Text || scan(Mode::Text, t) == Mode::Percent
}

/// Well-formed markup that can stand before any other: it does not end in a
/// `%` that a `{` behind it would turn into the start of a block.
pub open spec fn complete(t: Seq<char>) -> bool {
    scan(Mode::Text, t) == Mode::Text
}

/// Text without a block: no `%` in it is followed by a `{`.
pub open spec fn plain(t: Seq<char>) -> bool {
    forall|i: int| 0 <= i < t.len() - 1 ==> !(#[trigger] t[i] == '%' && t[i + 1] == '{')
}

/// What a block holds: neither of the two braces.
pub open spec fn block_content(t: Seq<char>) -> bool {
    forall|i: int| 0 <= i < t.len() ==> #[trigger] t[i] != '{' && t[i] != '}'
}

/// The block that holds `content`.
pub open spec fn block(content: Seq<char>) -> Seq<char> {
    seq!['%', '{'] + content + seq!['}']
}

/// Reading two texts in a row is reading their concatenation.
pub proof fn lemma_scan_concat(m: Mode, a: Seq<char>, b: Seq<char>)
    ensures
        scan(m, a + b) == scan(scan(m, a), b),
    decreases b.len(),
{
    if b.len() == 0 {
        assert(a + b =~= a);
    } else {
        lemma_scan_concat(m, a, b.drop_last());
        assert((a + b).drop_last() =~= a + b.drop_last());
        assert((a + b).last() == b.last());
    }
}

/// Complete markup leaves the reader in text, so what follows it is read as
/// it would be on its own: two complete texts in a row are complete.
pub proof fn lemma_complete_concat(a: Seq<char>, b: Seq<char>)
    requires
        complete(a),
        complete(b),
    ensures
        complete(a + b),
{
    lemma_scan_concat(Mode::Text, a, b);
}

/// The empty text is complete.
pub proof fn lemma_complete_empty()
    ensures
        complete(Seq::<char>::empty()),
{
}

/// Inside a block the reader stays until the block's content is read.
proof fn lemma_scan_content(t: Seq<char>)
    requires
        block_content(t),
    ensures
        scan(Mode::Block, t) == Mode::Block,
    decreases t.len(),
{
    if t.len() > 0 {
        assert forall|i: int| 0 <= i < t.drop_last().len() implies #[trigger] t.drop_last()[i]
            != '{' && t.drop_last()[i] != '}' by {
            assert(t.drop_last()[i] == t[i]);
        }
        lemma_scan_content(t.drop_last());
        assert(t.last() == t[t.len() - 1]);
    }
}

/// Reading one character is one step.
pub proof fn lemma_scan_one(m: Mode, c: char)
    ensures
        scan(m, seq![c]) == step(m, c),
{
    assert(seq![c].drop_last() =~= Seq::<char>::empty());
    assert(scan(m, seq![c].drop_last()) == m);
}

/// A block behind well-formed markup: the reader is in text again.
pub proof fn lemma_scan_block(m: Mode, content: Seq<char>)
    requires
        m == Mode::Text || m == Mode::Percent,
        block_content(content),
    ensures
        scan(m, block(content)) == Mode::Text,
{
    let open = seq!['%', '{'];
    assert(open =~= seq!['%'] + seq!['{']);
    lemma_scan_one(m, '%');
    lemma_scan_one(Mode::Percent, '{');
    lemma_scan_concat(m, seq!['%'], seq!['{']);
    lemma_scan_content(content);
    lemma_scan_concat(m, open, content);
    lemma_scan_one(Mode::Block, '}');
    lemma_scan_concat(m, open + content, seq!['}']);
}

/// A block alone is complete.
pub proof fn lemma_block_complete(content: Seq<char>)
    requires
        block_content(content),
    ensures
        complete(block(content)),
{
    lemma_scan_block(Mode::Text, content);
}

/// Behind well-formed markup a block, and all that follows it, is read as
/// it would be on its own.
pub proof fn lemma_block_resets(t: Seq<char>, content: Seq<char>, rest: Seq<char>)
    requires
        well_formed(t),
        block_content(content),
    ensures
        scan(Mode::Text, t + (block(content) + rest)) == scan(Mode::Text, block(content) + rest),
{
    lemma_scan_concat(Mode::Text, t, block(content) + rest);
    lemma_scan_concat(scan(Mode::Text, t), block(content), rest);
    lemma_scan_concat(Mode::Text, block(content), rest);
    lemma_scan_block(scan(Mode::Text, t), content);
    lemma_scan_block(Mode::Text, content);
}

/// Well-formed markup between two blocks is complete.
pub proof fn lemma_between_blocks(open: Seq<char>, t: Seq<char>, close: Seq<char>)
    requires
        block_content(open),
        block_content(close),
        well_formed(t),
    ensures
        complete(block(open) + t + block(close)),
{
    lemma_scan_block(Mode::Text, open);
    lemma_scan_concat(Mode::Text, block(open), t);
    lemma_scan_block(scan(Mode::Text, t), close);
    lemma_scan_concat(Mode::Text, block(open) + t, block(close));
}

/// Plain text is well-formed, and the reader is behind a `%` only where the
/// text ends in one.
pub proof fn lemma_plain_well_formed(t: Seq<char>)
    requires
        plain(t),
    ensures
        well_formed(t),
        scan(Mode::Text, t) == Mode::Percent ==> t.len() > 0 && t.last() == '%',
    decreases t.len(),
{
    if t.len() > 0 {
        let init = t.drop_last();
        assert forall|i: int| 0 <= i < init.len() - 1 implies !(#[trigger] init[i] == '%' && init[i
            + 1] == '{') by {
            assert(init[i] == t[i] && init[i + 1] == t[i + 1]);
        }
        lemma_plain_well_formed(init);
        if scan(Mode::Text, init) == Mode::Percent {
            assert(t[t.len() - 2] == init.last());
            assert(!(t[t.len() - 2] == '%' && t[t.len() - 2 + 1] == '{'));
        }
    }
}

/// Two plain texts in a row are plain, unless the first ends in `%` and the
/// second begins with `{`.
pub proof fn lemma_plain_concat(a: Seq<char>, b: Seq<char>)
    requires
        plain(a),
        plain(b),
        a.len() == 0 || b.len() == 0 || a.last() != '%' || b[0] != '{',
    ensures
        plain(a + b),
{
    let t = a + b;
    assert forall|i: int| 0 <= i < t.len() - 1 implies !(#[trigger] t[i] == '%' && t[i + 1]
        == '{') by {
        if i + 1 < a.len() {
            assert(t[i] == a[i] && t[i + 1] == a[i + 1]);
        } else if i >= a.len() {
            assert(t[i] == b[i - a.len()] && t[i + 1] == b[i - a.len() + 1]);
        } else {
            assert(t[i] == a.last() && t[i + 1] == b[0]);
        }
    }
}

/// Every part of a plain text is plain.
pub proof fn lemma_plain_subrange(t: Seq<char>, from: int, to: int)
    requires
        plain(t),
        0 <= from <= to <= t.len(),
    ensures
        plain(t.subrange(from, to)),
{
    let part = t.subrange(from, to);
    assert forall|i: int| 0 <= i < part.len() - 1 implies !(#[trigger] part[i] == '%' && part[i
        + 1] == '{') by {
        assert(part[i] == t[from + i] && part[i + 1] == t[from + i + 1]);
    }
}

/// Reads one character.
pub fn advance(m: Mode, c: char) -> (next: Mode)
    ensures
        next == step(m, c),
{
    match m {
        Mode::Text => if c == '%' {
            Mode::Percent
        } else {
            Mode::Text
        },
        Mode::Percent => if c == '{' {
            Mode::Block
        } else if c == '%' {
            Mode::Percent
        } else {
            Mode::Text
        },
        Mode::Block => if c == '}' {
            Mode::Text
        } else if c == '{' {
            Mode::Broken
        } else {
            Mode::Block
        },
        Mode::Broken => Mode::Broken,
    }
}

/// Reads `text` and tells whether it is complete markup.
pub fn is_complete(text: &str) -> (b: bool)
    ensures
        b == complete(text@),
{
    let len = text.unicode_len();
    let mut mode = Mode::Text;
    let mut i: usize = 0;
    while i < len
        invariant
            i <= len,
            len == text@.len(),
            mode == scan(Mode::Text, text@.take(i as int)),
        decreases len - i,
    {
        proof {
            assert(text@.take(i + 1).drop_last() =~= text@.take(i as int));
            assert(text@.take(i + 1).last() == text@[i as int]);
        }
        mode = advance(mode, text.get_char(i));
        i += 1;
    }
    assert(text@.take(i as int) =~= text@);
    match mode {
        Mode::Text => true,
        _ => false,
    }
}

} // verus!
