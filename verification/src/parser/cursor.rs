//! Line cursor over preprocessed lines.
use vstd::prelude::*;

use crate::ast::Location;
use crate::preprocessor::PreprocessedLine;
use crate::text::{chars_of, is_blank, is_blank_slice, trim};

verus! {

pub struct Cursor<'a> {
    lines: &'a [PreprocessedLine],
    pos: usize,
}

/// The texts of a run of lines.
pub open spec fn texts(ls: Seq<PreprocessedLine>) -> Seq<Seq<char>> {
    ls.map_values(|l: PreprocessedLine| l.text@)
}

pub proof fn lemma_texts(ls: Seq<PreprocessedLine>)
    ensures
        texts(ls).len() == ls.len(),
        forall|i: int| 0 <= i < ls.len() ==> #[trigger] texts(ls)[i] == ls[i].text@,
{
}

/// Is the line empty or all whitespace?
pub fn line_is_blank(l: &PreprocessedLine) -> (res: bool)
    ensures
        res == is_blank(l.text@),
{
    let t = chars_of(l.text.as_str());
    is_blank_slice(t.as_slice())
}

impl<'a> Cursor<'a> {
    /// The lines the cursor walks over.
    pub closed spec fn lines(&self) -> Seq<PreprocessedLine> {
        self.lines@
    }

    /// Index of the next line to read.
    pub closed spec fn pos(&self) -> int {
        self.pos as int
    }

    #[verifier::type_invariant]
    closed spec fn inv(&self) -> bool {
        self.pos <= self.lines@.len()
    }

    pub fn new(lines: &'a [PreprocessedLine]) -> (res: Self)
        ensures
            res.lines() == lines@,
            res.pos() == 0,
    {
        Cursor { lines, pos: 0 }
    }

    pub fn at_end(&self) -> (res: bool)
        ensures
            res == (self.pos() >= self.lines().len()),
    {
        self.pos >= self.lines.len()
    }

    pub fn peek(&self) -> (res: Option<&'a PreprocessedLine>)
        ensures
            0 <= self.pos() <= self.lines().len(),
            res matches Some(l) ==> self.pos() < self.lines().len() && *l == self.lines()[self.pos()],
            res is None ==> self.pos() == self.lines().len(),
    {
        proof {
            use_type_invariant(self);
        }
        if self.pos < self.lines.len() {
            Some(&self.lines[self.pos])
        } else {
            None
        }
    }

    pub fn peek_text(&self) -> (res: Option<&'a str>)
        ensures
            res matches Some(t) ==> self.pos() < self.lines().len() && t@ == self.lines()[self.pos()].text@,
            res is None ==> self.pos() >= self.lines().len(),
    {
        match self.peek() {
            Some(l) => Some(l.text.as_str()),
            None => None,
        }
    }

    pub fn advance(&mut self) -> (res: Option<&'a PreprocessedLine>)
        ensures
            final(self).lines() == old(self).lines(),
            res matches Some(l) ==> old(self).pos() < old(self).lines().len() && *l == old(
                self,
            ).lines()[old(self).pos()] && final(self).pos() == old(self).pos() + 1,
            res is None ==> old(self).pos() >= old(self).lines().len() && final(self).pos() == old(
                self,
            ).pos(),
    {
        proof {
            use_type_invariant(&*self);
        }
        if self.pos < self.lines.len() {
            let out = &self.lines[self.pos];
            self.pos = self.pos + 1;
            Some(out)
        } else {
            None
        }
    }

    /// Current index, to come back to later with [`Cursor::seek`].
    pub fn position(&self) -> (res: usize)
        ensures
            res == self.pos(),
            res <= self.lines().len(),
    {
        proof {
            use_type_invariant(self);
        }
        self.pos
    }

    /// Moves back (or forward) to a saved position.
    pub fn seek(&mut self, pos: usize)
        requires
            pos <= old(self).lines().len(),
        ensures
            final(self).lines() == old(self).lines(),
            final(self).pos() == pos,
    {
        self.pos = pos;
    }

    pub fn skip_blank_lines(&mut self)
        ensures
            final(self).lines() == old(self).lines(),
            old(self).pos() <= final(self).pos() <= old(self).lines().len(),
            forall|j: int|
                old(self).pos() <= j < final(self).pos() ==> is_blank(
                    #[trigger] old(self).lines()[j].text@,
                ),
            final(self).pos() < old(self).lines().len() ==> !is_blank(
                old(self).lines()[final(self).pos()].text@,
            ),
    {
        proof {
            use_type_invariant(&*self);
        }
        let ghost start = self.pos;
        while self.pos < self.lines.len() && line_is_blank(&self.lines[self.pos])
            invariant
                start <= self.pos <= self.lines@.len(),
                self.lines@ == old(self).lines(),
                start == old(self).pos(),
                forall|j: int| start <= j < self.pos ==> is_blank(#[trigger] self.lines@[j].text@),
            decreases self.lines.len() - self.pos,
        {
            self.pos = self.pos + 1;
        }
    }

    pub fn current_location(&self) -> (res: Location)
        ensures
            self.pos() < self.lines().len() ==> res == self.lines()[self.pos()].location,
            self.pos() >= self.lines().len() && self.lines().len() > 0 ==> res == self.lines().last().location,
            self.lines().len() == 0 ==> res == Location::synthetic_spec(),
    {
        match self.peek() {
            Some(line) => line.location,
            None => {
                if self.lines.len() > 0 {
                    self.lines[self.lines.len() - 1].location
                } else {
                    Location::synthetic()
                }
            },
        }
    }
}

} // verus!
