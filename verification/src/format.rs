//! The style model and the markup renderer.

use crate::markup::{
    block, block_content, complete, lemma_between_blocks, lemma_block_resets,
    lemma_plain_subrange, lemma_plain_well_formed, plain, well_formed,
};
use vstd::prelude::*;

verus! {

/// A colour of the palette.
#[derive(Clone, Copy, Debug, PartialEq, Eq)]
pub enum Color {
    Black,
    Red,
    Green,
    Blue,
    Purple,
    Orange,
    White,
}

impl Color {
    /// The hexadecimal code of the colour, as the bar's markup writes it.
    pub open spec fn code(self) -> Seq<char> {
        match self {
            Color::Black => "#2c292d"@,
            Color::Red => "#ff6188"@,
            Color::Green => "#a9dc76"@,
            Color::Blue => "#78dce8"@,
            Color::Purple => "#ab9df2"@,
            Color::Orange => "#fc9867"@,
            Color::White => "#fdf9f3"@,
        }
    }

    /// Every code is a `#` followed by six characters.
    pub proof fn lemma_code_shape(self)
        ensures
            self.code().len() == 7,
            self.code()[0] == '#',
    {
        reveal_strlit("#2c292d");
        reveal_strlit("#ff6188");
        reveal_strlit("#a9dc76");
        reveal_strlit("#78dce8");
        reveal_strlit("#ab9df2");
        reveal_strlit("#fc9867");
        reveal_strlit("#fdf9f3");
    }

    pub fn hex(&self) -> (code: &'static str)
        ensures
            code@ == self.code(),
            code@.len() == 7,
    {
        proof {
            self.lemma_code_shape();
        }
        match *self {
            Color::Black => "#2c292d",
            Color::Red => "#ff6188",
            Color::Green => "#a9dc76",
            Color::Blue => "#78dce8",
            Color::Purple => "#ab9df2",
            Color::Orange => "#fc9867",
            Color::White => "#fdf9f3",
        }
    }
}

/// A ratio of two whole numbers, `num / den`, that is put to use as a share of
/// some whole: of a text's length, of a battery's charge.
///
/// Any pair is accepted. A ratio above one counts as one wherever a share is
/// taken. With a denominator of zero the ratio is zero if the numerator is
/// zero too, and otherwise beyond every bound.
#[derive(Clone, Copy, Debug, PartialEq, Eq)]
pub struct Fraction {
    pub num: u64,
    pub den: u64,
}

impl Fraction {
    /// The share of `len` that the fraction marks: `num / den * len`, rounded
    /// to the nearest whole number (a half rounds up), and never more than
    /// `len`.
    pub open spec fn share(self, len: nat) -> nat {
        if self.den == 0 {
            if self.num == 0 {
                0
            } else {
                len
            }
        } else {
            let nearest = (2 * self.num * len + self.den) / (2 * self.den);
            if nearest <= len {
                nearest as nat
            } else {
                len
            }
        }
    }

    /// Whether the fraction lies strictly above `percent` hundredths.
    pub open spec fn above(self, percent: nat) -> bool {
        100 * self.num > percent * self.den
    }

    /// The whole hundredths in the fraction, rounded down, 255 at most.
    pub open spec fn hundredths(self) -> nat {
        if self.den == 0 {
            if self.num == 0 {
                0
            } else {
                255
            }
        } else if 100 * self.num / (self.den as int) <= 255 {
            (100 * self.num / (self.den as int)) as nat
        } else {
            255
        }
    }

    /// The fraction `num / den`.
    pub fn new(num: u64, den: u64) -> (f: Fraction)
        ensures
            f.num == num,
            f.den == den,
    {
        Fraction { num, den }
    }

    /// Computes `self.share(len)`.
    pub fn share_of(&self, len: usize) -> (k: usize)
        ensures
            k == self.share(len as nat),
            k <= len,
    {
        if self.den == 0 {
            if self.num == 0 {
                0
            } else {
                len
            }
        } else if self.num >= self.den {
            proof {
                lemma_share_full(self.num as int, self.den as int, len as int);
            }
            len
        } else {
            proof {
                lemma_product_fits(self.num as int, len as int);
            }
            let product: u128 = (self.num as u128) * (len as u128);
            let den: u128 = self.den as u128;
            let quotient: u128 = product / den;
            let rest: u128 = product % den;
            proof {
                lemma_share_rounding(self.num as int, self.den as int, len as int);
            }
            if 2 * rest >= den {
                (quotient + 1) as usize
            } else {
                quotient as usize
            }
        }
    }

    /// Computes `self.above(percent)`.
    pub fn is_above(&self, percent: u8) -> (b: bool)
        ensures
            b == self.above(percent as nat),
    {
        proof {
            lemma_product_fits(percent as int, self.den as int);
        }
        let left: u128 = 100 * (self.num as u128);
        let right: u128 = (percent as u128) * (self.den as u128);
        left > right
    }

    /// Computes `self.hundredths()`.
    pub fn percent(&self) -> (p: u8)
        ensures
            p == self.hundredths(),
    {
        if self.den == 0 {
            if self.num == 0 {
                0
            } else {
                255
            }
        } else {
            let whole: u128 = 100 * (self.num as u128) / (self.den as u128);
            if whole <= 255 {
                whole as u8
            } else {
                255
            }
        }
    }
}

/// A style directive: one way of wrapping a text in the bar's markup.
#[derive(Clone, Copy, Debug, PartialEq, Eq)]
pub enum Format {
    /// Draw the text in the given colour.
    Foreground(Color),
    /// Draw the text on the given colour.
    Background(Color),
    /// Draw a line under the text.
    Underline,
    /// Draw a line over the text.
    Overline,
    /// Exchange foreground and background for the text.
    Swap,
    /// Exchange foreground and background from the given share of the
    /// text's characters on, which draws the text as a gauge.
    SwapAt(Fraction),
}

impl Format {
    /// The markup that the directive makes of the text `s`.
    ///
    /// `SwapAt(f)` leaves the first `f.share(s.len())` characters as they are
    /// and wraps the remaining ones as `Swap` does, also when none remain.
    pub open spec fn styled(self, s: Seq<char>) -> Seq<char> {
        match self {
            Format::Foreground(c) => "%{F"@ + c.code() + "}"@ + s + "%{F-}"@,
            Format::Background(c) => "%{B"@ + c.code() + "}"@ + s + "%{B-}"@,
            Format::Underline => "%{+u}"@ + s + "%{-u}"@,
            Format::Overline => "%{+o}"@ + s + "%{-o}"@,
            Format::Swap => "%{R}"@ + s + "%{R}"@,
            Format::SwapAt(f) => {
                let k = f.share(s.len()) as int;
                s.subrange(0, k) + ("%{R}"@ + s.subrange(k, s.len() as int) + "%{R}"@)
            },
        }
    }

    /// Whether the directive splits the text that it is applied to.
    pub open spec fn is_gauge(self) -> bool {
        self is SwapAt
    }

    /// Wraps `s` as the directive asks.
    pub fn apply(&self, s: String) -> (out: String)
        ensures
            out@ == self.styled(s@),
    {
        match *self {
            Format::Foreground(c) => {
                let mut out = between("%{F", c.hex(), "}");
                out.append(s.as_str());
                out.append("%{F-}");
                out
            },
            Format::Background(c) => {
                let mut out = between("%{B", c.hex(), "}");
                out.append(s.as_str());
                out.append("%{B-}");
                out
            },
            Format::Underline => between("%{+u}", s.as_str(), "%{-u}"),
            Format::Overline => between("%{+o}", s.as_str(), "%{-o}"),
            Format::Swap => between("%{R}", s.as_str(), "%{R}"),
            Format::SwapAt(f) => {
                let len = s.as_str().unicode_len();
                let k = f.share_of(len);
                let head = s.as_str().substring_char(0, k);
                let tail = s.as_str().substring_char(k, len);
                let mut out = String::from_str(head);
                out.append("%{R}");
                out.append(tail);
                out.append("%{R}");
                assert(out@ =~= self.styled(s@));
                out
            },
        }
    }
}

/// The text `s` between the markers `open` and `end`.
fn between(open: &str, s: &str, end: &str) -> (out: String)
    ensures
        out@ == open@ + s@ + end@,
{
    let mut out = String::from_str(open);
    out.append(s);
    out.append(end);
    out
}

/// The markup that a sequence of directives makes of `s`: the first directive
/// is applied to `s`, each later one to what the one before it made. The
/// directives do not nest inside each other: a later one wraps all that the
/// earlier ones wrote, so the order matters.
pub open spec fn styled_by(s: Seq<char>, directives: Seq<Format>) -> Seq<char> {
    directives.fold_left(s, |acc: Seq<char>, d: Format| d.styled(acc))
}

/// Applies the directives to `s` from the first to the last, each to the
/// result of the one before.
pub fn apply_sequence(s: String, directives: &[Format]) -> (out: String)
    ensures
        out@ == styled_by(s@, directives@),
{
    let ghost start = s@;
    let mut out = s;
    let mut i: usize = 0;
    while i < directives.len()
        invariant
            i <= directives.len(),
            out@ == styled_by(start, directives@.take(i as int)),
        decreases directives.len() - i,
    {
        proof {
            lemma_styled_by_push(start, directives@.take(i as int), directives@[i as int]);
            assert(directives@.take(i as int).push(directives@[i as int]) =~= directives@.take(
                i + 1,
            ));
        }
        out = directives[i].apply(out);
        i += 1;
    }
    assert(directives@.take(i as int) =~= directives@);
    out
}

/// No directive leaves the text as it is.
pub proof fn lemma_styled_by_none(s: Seq<char>)
    ensures
        styled_by(s, Seq::empty()) == s,
{
}

/// One more directive at the end wraps what the others made.
pub proof fn lemma_styled_by_push(s: Seq<char>, directives: Seq<Format>, d: Format)
    ensures
        styled_by(s, directives.push(d)) == d.styled(styled_by(s, directives)),
{
    assert(directives.push(d).drop_last() =~= directives);
}

/// The directives of two sequences in a row do what the first sequence does
/// and then, to its result, the second.
pub proof fn lemma_styled_by_concat(s: Seq<char>, first: Seq<Format>, second: Seq<Format>)
    ensures
        styled_by(s, first + second) == styled_by(styled_by(s, first), second),
    decreases second.len(),
{
    if second.len() == 0 {
        assert(first + second =~= first);
    } else {
        lemma_styled_by_concat(s, first, second.drop_last());
        assert((first + second).drop_last() =~= first + second.drop_last());
        assert((first + second).last() == second.last());
    }
}

/// Nothing is the share of a fraction of zero.
pub proof fn lemma_share_of_zero(f: Fraction, len: nat)
    requires
        f.num == 0,
    ensures
        f.share(len) == 0,
{
    if f.den != 0 {
        assert(2 * f.num * len + f.den == f.den) by (nonlinear_arith)
            requires
                f.num == 0,
        ;
        vstd::arithmetic::div_mod::lemma_basic_div(f.den as int, 2 * f.den);
    }
}

/// The whole is the share of a fraction of one, and of any above one.
pub proof fn lemma_share_of_one(f: Fraction, len: nat)
    requires
        0 < f.num,
        f.den <= f.num,
    ensures
        f.share(len) == len,
{
    if f.den != 0 {
        lemma_share_full(f.num as int, f.den as int, len as int);
    }
}

/// A fraction of zero exchanges the colours of the whole text, as `Swap`
/// does.
pub proof fn lemma_swap_at_zero(f: Fraction, s: Seq<char>)
    requires
        f.num == 0,
    ensures
        Format::SwapAt(f).styled(s) == Format::Swap.styled(s),
{
    lemma_share_of_zero(f, s.len());
    assert(s.subrange(0, s.len() as int) =~= s);
    assert(Format::SwapAt(f).styled(s) =~= Format::Swap.styled(s));
}

/// A fraction of one or more is taken as one: the whole text stays as it is,
/// and what follows it is the pair of markers with nothing between them.
pub proof fn lemma_swap_at_one(f: Fraction, s: Seq<char>)
    requires
        0 < f.num,
        f.den <= f.num,
    ensures
        Format::SwapAt(f).styled(s) == s + Format::Swap.styled(Seq::empty()),
{
    lemma_share_of_one(f, s.len());
    assert(s.subrange(0, s.len() as int) =~= s);
    assert(s.subrange(s.len() as int, s.len() as int) =~= Seq::<char>::empty());
}

/// Whatever the fraction, the split lies within the text: the characters
/// before it stay, those from it on are wrapped as `Swap` wraps them.
pub proof fn lemma_swap_at_splits(f: Fraction, s: Seq<char>)
    ensures
        f.share(s.len()) <= s.len(),
        Format::SwapAt(f).styled(s) == s.take(f.share(s.len()) as int) + Format::Swap.styled(
            s.skip(f.share(s.len()) as int),
        ),
{
}

/// Where the fraction of the length is a whole number, the split is there:
/// half of ten characters is five.
pub proof fn lemma_share_exact(f: Fraction, len: nat, k: nat)
    requires
        f.den > 0,
        f.num * len == k * f.den,
    ensures
        f.share(len) == if k <= len {
            k
        } else {
            len
        },
{
    let d = f.den as int;
    assert(2 * f.num * len + d == k * (2 * d) + d) by (nonlinear_arith)
        requires
            f.num * len == k * d,
    ;
    vstd::arithmetic::div_mod::lemma_fundamental_div_mod_converse(
        2 * f.num * len + d,
        2 * d,
        k as int,
        d,
    );
}

/// A directive that does not split the text makes complete markup of
/// well-formed markup.
pub proof fn lemma_styled_complete(d: Format, s: Seq<char>)
    requires
        !d.is_gauge(),
        well_formed(s),
    ensures
        complete(d.styled(s)),
{
    reveal_strlit("%{F");
    reveal_strlit("%{B");
    reveal_strlit("}");
    reveal_strlit("%{F-}");
    reveal_strlit("%{B-}");
    reveal_strlit("%{+u}");
    reveal_strlit("%{-u}");
    reveal_strlit("%{+o}");
    reveal_strlit("%{-o}");
    reveal_strlit("%{R}");
    match d {
        Format::Foreground(c) => {
            lemma_code_content(c);
            let open = seq!['F'] + c.code();
            let close = seq!['F', '-'];
            lemma_between_blocks(open, s, close);
            assert(d.styled(s) =~= block(open) + s + block(close));
        },
        Format::Background(c) => {
            lemma_code_content(c);
            let open = seq!['B'] + c.code();
            let close = seq!['B', '-'];
            lemma_between_blocks(open, s, close);
            assert(d.styled(s) =~= block(open) + s + block(close));
        },
        Format::Underline => {
            lemma_between_blocks(seq!['+', 'u'], s, seq!['-', 'u']);
            assert(d.styled(s) =~= block(seq!['+', 'u']) + s + block(seq!['-', 'u']));
        },
        Format::Overline => {
            lemma_between_blocks(seq!['+', 'o'], s, seq!['-', 'o']);
            assert(d.styled(s) =~= block(seq!['+', 'o']) + s + block(seq!['-', 'o']));
        },
        Format::Swap => {
            lemma_between_blocks(seq!['R'], s, seq!['R']);
            assert(d.styled(s) =~= block(seq!['R']) + s + block(seq!['R']));
        },
        Format::SwapAt(_) => {},
    }
}

/// A gauge makes complete markup of plain text, wherever it splits it.
pub proof fn lemma_gauge_complete(f: Fraction, s: Seq<char>)
    requires
        plain(s),
    ensures
        complete(Format::SwapAt(f).styled(s)),
{
    let k = f.share(s.len()) as int;
    let head = s.subrange(0, k);
    let tail = s.subrange(k, s.len() as int);
    let end = tail + block(seq!['R']);
    lemma_plain_subrange(s, 0, k);
    lemma_plain_subrange(s, k, s.len() as int);
    lemma_plain_well_formed(head);
    lemma_plain_well_formed(tail);
    lemma_styled_complete(Format::Swap, tail);
    lemma_block_resets(head, seq!['R'], end);
    reveal_strlit("%{R}");
    assert(Format::Swap.styled(tail) =~= block(seq!['R']) + end);
    assert(Format::SwapAt(f).styled(s) =~= head + (block(seq!['R']) + end));
}

/// Directives of which at most the first is a gauge make complete markup of
/// plain text.
pub proof fn lemma_styled_by_complete(s: Seq<char>, directives: Seq<Format>)
    requires
        plain(s),
        directives.len() > 0,
        forall|i: int| 0 < i < directives.len() ==> !(#[trigger] directives[i]).is_gauge(),
    ensures
        complete(styled_by(s, directives)),
    decreases directives.len(),
{
    let d = directives.last();
    let init = directives.drop_last();
    if init.len() == 0 {
        assert(styled_by(s, init) == s);
        if d.is_gauge() {
            lemma_gauge_complete(d->SwapAt_0, s);
        } else {
            lemma_plain_well_formed(s);
            lemma_styled_complete(d, s);
        }
    } else {
        assert forall|i: int| 0 < i < init.len() implies !(#[trigger] init[i]).is_gauge() by {
            assert(init[i] == directives[i]);
        }
        lemma_styled_by_complete(s, init);
        lemma_styled_complete(d, styled_by(s, init));
    }
}

/// The code of a colour holds no brace.
proof fn lemma_code_content(c: Color)
    ensures
        block_content(seq!['F'] + c.code()),
        block_content(seq!['B'] + c.code()),
{
    reveal_strlit("#2c292d");
    reveal_strlit("#ff6188");
    reveal_strlit("#a9dc76");
    reveal_strlit("#78dce8");
    reveal_strlit("#ab9df2");
    reveal_strlit("#fc9867");
    reveal_strlit("#fdf9f3");
}

proof fn lemma_product_fits(a: int, b: int)
    requires
        0 <= a <= u64::MAX,
        0 <= b <= u64::MAX,
    ensures
        0 <= a * b <= u64::MAX * u64::MAX,
        a * b <= u128::MAX,
{
    assert(0 <= a * b <= u64::MAX * u64::MAX) by (nonlinear_arith)
        requires
            0 <= a <= u64::MAX,
            0 <= b <= u64::MAX,
    ;
}

/// A ratio of one or more marks the whole length.
proof fn lemma_share_full(num: int, den: int, len: int)
    requires
        0 < den <= num,
        0 <= len,
    ensures
        (2 * num * len + den) / (2 * den) >= len,
{
    assert(2 * num * len + den >= len * (2 * den)) by (nonlinear_arith)
        requires
            0 < den <= num,
            0 <= len,
    ;
    vstd::arithmetic::div_mod::lemma_div_is_ordered(len * (2 * den), 2 * num * len + den, 2 * den);
    vstd::arithmetic::div_mod::lemma_div_multiples_vanish(len, 2 * den);
}

/// Rounding to the nearest whole number, from quotient and remainder.
proof fn lemma_share_rounding(num: int, den: int, len: int)
    requires
        0 <= num < den,
        0 <= len,
    ensures
        (2 * num * len + den) / (2 * den) == (num * len) / den + (if 2 * ((num * len) % den)
            >= den {
            1int
        } else {
            0int
        }),
        (2 * num * len + den) / (2 * den) <= len,
        0 <= (num * len) / den,
{
    let n = num * len;
    let q = n / den;
    let r = n % den;
    vstd::arithmetic::div_mod::lemma_fundamental_div_mod(n, den);
    vstd::arithmetic::div_mod::lemma_mod_bound(n, den);
    assert(n == den * q + r);
    assert(0 <= n) by (nonlinear_arith)
        requires
            0 <= num,
            0 <= len,
            n == num * len,
    ;
    assert(n <= (den - 1) * len) by (nonlinear_arith)
        requires
            0 <= num < den,
            0 <= len,
            n == num * len,
    ;
    assert(2 * num * len == 2 * n) by (nonlinear_arith)
        requires
            n == num * len,
    ;
    let up = if 2 * r >= den { 1int } else { 0int };
    let rem = 2 * r + den - up * (2 * den);
    assert(0 <= rem < 2 * den);
    assert(2 * n + den == (q + up) * (2 * den) + rem) by (nonlinear_arith)
        requires
            n == den * q + r,
            rem == 2 * r + den - up * (2 * den),
    ;
    vstd::arithmetic::div_mod::lemma_fundamental_div_mod_converse(
        2 * n + den,
        2 * den,
        q + up,
        rem,
    );
    assert(0 <= q) by (nonlinear_arith)
        requires
            n == den * q + r,
            0 <= n,
            0 <= r < den,
    ;
    assert(q + up <= len) by (nonlinear_arith)
        requires
            n == den * q + r,
            n <= (den - 1) * len,
            0 <= r < den,
            0 <= len,
            up == (if 2 * r >= den { 1int } else { 0int }),
    ;
}

} // verus!
