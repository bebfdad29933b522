//! Text with numbers in it, before the numbers are written out.
//!
//! How a binary64 number is written in decimal is left to whoever prints the text; a document
//! says which number goes where, and in which of three notations.

use vstd::prelude::*;
use crate::number::{of_nat, Number};
use crate::text::{decimal, push_decimal};

verus! {

/// A stretch of a document.
#[derive(Clone, Debug)]
pub enum Piece {
    Text(String),
    /// A number with a fixed count of decimals.
    Fixed(Number, u8),
    /// A number with the fewest digits that tell it from every other number.
    Plain(Number),
    /// A finite number as JSON writes it.
    Json(Number),
}

/// One place of a document: a character, or a number that is yet to be written out.
pub enum Glyph {
    Char(char),
    Fixed(Number, u8),
    Plain(Number),
    Json(Number),
}

/// Characters as they stand.
pub open spec fn ink(s: Seq<char>) -> Seq<Glyph> {
    Seq::new(s.len(), |i: int| Glyph::Char(s[i]))
}

/// A whole number in decimal.
pub open spec fn count_ink(n: u64) -> Seq<Glyph> {
    ink(decimal(n as nat))
}

pub open spec fn piece_ink(p: Piece) -> Seq<Glyph> {
    match p {
        Piece::Text(s) => ink(s@),
        Piece::Fixed(v, d) => seq![Glyph::Fixed(v, d)],
        Piece::Plain(v) => seq![Glyph::Plain(v)],
        Piece::Json(v) => seq![Glyph::Json(v)],
    }
}

pub open spec fn pieces_ink(ps: Seq<Piece>) -> Seq<Glyph>
    decreases ps.len(),
{
    if ps.len() == 0 {
        Seq::empty()
    } else {
        pieces_ink(ps.drop_last()) + piece_ink(ps.last())
    }
}

/// Text with numbers in it.
#[derive(Clone, Debug)]
pub struct Doc {
    pub pieces: Vec<Piece>,
}

impl View for Doc {
    type V = Seq<Glyph>;

    open spec fn view(&self) -> Seq<Glyph> {
        pieces_ink(self.pieces@)
    }
}

impl DeepView for Doc {
    type V = Seq<Glyph>;

    open spec fn deep_view(&self) -> Seq<Glyph> {
        self@
    }
}

proof fn lemma_pushed(ps: Seq<Piece>, p: Piece)
    ensures
        pieces_ink(ps.push(p)) == pieces_ink(ps) + piece_ink(p),
{
    assert(ps.push(p).drop_last() =~= ps);
}

impl Doc {
    pub fn new() -> (r: Doc)
        ensures
            r@ == Seq::<Glyph>::empty(),
    {
        Doc { pieces: Vec::new() }
    }

    /// A document of plain text.
    pub fn of(s: &str) -> (r: Doc)
        ensures
            r@ == ink(s@),
    {
        let mut r = Doc::new();
        r.text(s);
        assert(r@ =~= ink(s@));
        r
    }

    pub fn text(&mut self, s: &str)
        ensures
            final(self)@ == old(self)@ + ink(s@),
    {
        let ghost ps = self.pieces@;
        let piece = Piece::Text(s.to_owned());
        proof {
            lemma_pushed(ps, piece);
        }
        self.pieces.push(piece);
    }

    pub fn count(&mut self, n: u64)
        ensures
            final(self)@ == old(self)@ + count_ink(n),
    {
        let mut s = String::new();
        push_decimal(&mut s, n);
        assert(s@ =~= decimal(n as nat));
        self.text(s.as_str());
    }

    pub fn fixed(&mut self, v: Number, decimals: u8)
        ensures
            final(self)@ == old(self)@ + seq![Glyph::Fixed(v, decimals)],
    {
        proof {
            lemma_pushed(self.pieces@, Piece::Fixed(v, decimals));
        }
        self.pieces.push(Piece::Fixed(v, decimals));
    }

    pub fn plain(&mut self, v: Number)
        ensures
            final(self)@ == old(self)@ + seq![Glyph::Plain(v)],
    {
        proof {
            lemma_pushed(self.pieces@, Piece::Plain(v));
        }
        self.pieces.push(Piece::Plain(v));
    }

    /// A number as JSON writes it; JSON has no number for what is not finite.
    pub fn json(&mut self, v: Number)
        ensures
            final(self)@ == old(self)@ + json_ink(v),
    {
        if v.is_finite() {
            proof {
                lemma_pushed(self.pieces@, Piece::Json(v));
            }
            self.pieces.push(Piece::Json(v));
        } else {
            self.text("null");
        }
    }

    /// Puts another document behind this one.
    pub fn append(&mut self, other: &Doc)
        ensures
            final(self)@ == old(self)@ + other@,
    {
        let ghost before = self@;
        let mut i: usize = 0;
        assert(before =~= before + pieces_ink(other.pieces@.take(0)));
        while i < other.pieces.len()
            invariant
                i <= other.pieces.len(),
                self@ == before + pieces_ink(other.pieces@.take(i as int)),
            decreases other.pieces.len() - i,
        {
            proof {
                let done = other.pieces@.take(i as int);
                assert(other.pieces@.take(i + 1) =~= done.push(other.pieces@[i as int]));
                lemma_pushed(done, other.pieces@[i as int]);
            }
            let ghost here = self@;
            match &other.pieces[i] {
                Piece::Text(s) => self.text(s.as_str()),
                Piece::Fixed(v, d) => self.fixed(*v, *d),
                Piece::Plain(v) => self.plain(*v),
                Piece::Json(v) => {
                    proof {
                        lemma_pushed(self.pieces@, Piece::Json(*v));
                    }
                    self.pieces.push(Piece::Json(*v));
                },
            }
            assert(self@ =~= before + (pieces_ink(other.pieces@.take(i as int)) + piece_ink(other.pieces@[i as int])));
            i = i + 1;
        }
        assert(other.pieces@.take(i as int) =~= other.pieces@);
    }
}

pub open spec fn json_ink(v: Number) -> Seq<Glyph> {
    if v.finite() {
        seq![Glyph::Json(v)]
    } else {
        ink("null"@)
    }
}

/// Stretches one behind the other.
pub open spec fn concat(parts: Seq<Seq<Glyph>>) -> Seq<Glyph>
    decreases parts.len(),
{
    if parts.len() == 0 {
        Seq::empty()
    } else {
        concat(parts.drop_last()) + parts.last()
    }
}

/// Stretches one behind the other, set apart by `sep`.
pub open spec fn joined(parts: Seq<Seq<Glyph>>, sep: Seq<char>) -> Seq<Glyph>
    decreases parts.len(),
{
    if parts.len() == 0 {
        Seq::empty()
    } else if parts.len() == 1 {
        parts[0]
    } else {
        joined(parts.drop_last(), sep) + ink(sep) + parts.last()
    }
}

/// One more stretch, behind what stands before all of them.
pub proof fn lemma_concat_step(base: Seq<Glyph>, parts: Seq<Seq<Glyph>>, i: int)
    requires
        0 <= i < parts.len(),
    ensures
        base + concat(parts.take(i + 1)) == base + concat(parts.take(i)) + parts[i],
{
    assert(parts.take(i + 1).drop_last() =~= parts.take(i));
    assert(base + (concat(parts.take(i)) + parts[i]) =~= base + concat(parts.take(i)) + parts[i]);
}

pub proof fn lemma_concat_ends(base: Seq<Glyph>, parts: Seq<Seq<Glyph>>)
    ensures
        base + concat(parts.take(0)) == base,
        base + concat(parts.take(parts.len() as int)) == base + concat(parts),
{
    assert(base + concat(parts.take(0)) =~= base);
    assert(parts.take(parts.len() as int) =~= parts);
}

/// Joins some documents.
pub fn join_docs(docs: &Vec<Doc>, sep: &str) -> (r: Doc)
    ensures
        r@ == joined(docs.deep_view(), sep@),
{
    let ghost parts = docs.deep_view();
    let mut out = Doc::new();
    let mut i: usize = 0;
    assert(parts.take(0) =~= Seq::<Seq<Glyph>>::empty());
    while i < docs.len()
        invariant
            i <= docs@.len(),
            parts == docs.deep_view(),
            out@ == joined(parts.take(i as int), sep@),
        decreases docs@.len() - i,
    {
        if i > 0 {
            out.text(sep);
        }
        out.append(&docs[i]);
        proof {
            assert(parts.take(i + 1).drop_last() =~= parts.take(i as int));
            assert(parts.take(i + 1).last() == parts[i as int]);
            if i == 0 {
                assert(out@ =~= joined(parts.take(i + 1), sep@));
            }
        }
        i = i + 1;
    }
    assert(parts.take(i as int) =~= parts);
    out
}

/// How a measured number is shown: fewer decimals the larger it is, and a dash for none.
pub open spec fn num_ink(v: Number) -> Seq<Glyph> {
    if !v.finite() {
        ink("-"@)
    } else if of_nat(10_000).at_most(v.absolute()) {
        seq![Glyph::Fixed(v, 0)]
    } else if of_nat(100).at_most(v.absolute()) {
        seq![Glyph::Fixed(v, 1)]
    } else {
        seq![Glyph::Fixed(v, 2)]
    }
}

/// A measured number as it is shown.
pub fn fmt_num(v: Number) -> (r: Doc)
    ensures
        r@ == num_ink(v),
{
    let mut r = Doc::new();
    if !v.is_finite() {
        r.text("-");
    } else if Number::of(10_000).le(v.abs()) {
        r.fixed(v, 0);
    } else if Number::of(100).le(v.abs()) {
        r.fixed(v, 1);
    } else {
        r.fixed(v, 2);
    }
    assert(r@ =~= num_ink(v));
    r
}

} // verus!
