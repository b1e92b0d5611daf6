//! Walking the rows of a spreadsheet: which row comes next, stepping back,
//! and which row an error refers to. The rows themselves stay with the caller,
//! which says for each row whether the sheet's format skips it.

use vstd::prelude::*;

verus! {

/// A position among the rows of a sheet.
#[derive(Clone, Copy, Debug, PartialEq, Eq)]
pub struct SheetCursor {
    /// The row returned last, until a step back.
    pub prev_row_id: Option<usize>,
    /// The first row not looked at yet.
    pub next_row_id: usize,
    /// Whether the last attempt to read a row found none.
    pub eof_reached: bool,
}

/// Whether all rows of `skipped` in `[from, to)` are skipped.
pub open spec fn all_skipped(skipped: Seq<bool>, from: int, to: int) -> bool {
    forall|j: int| from <= j < to ==> #[trigger] skipped[j]
}

impl SheetCursor {
    pub fn new() -> (r: SheetCursor)
        ensures
            r.prev_row_id is None,
            r.next_row_id == 0,
            !r.eof_reached,
    {
        SheetCursor { prev_row_id: None, next_row_id: 0, eof_reached: false }
    }

    /// Moves to the next row that is not skipped (`skipped[i]` tells for row
    /// `i`) and returns it, or reaches the end of the sheet.
    pub fn next_row(&mut self, skipped: &Vec<bool>) -> (r: Option<usize>)
        ensures
            match r {
                Some(i) => {
                    &&& old(self).next_row_id <= i < skipped@.len()
                    &&& !skipped@[i as int]
                    &&& all_skipped(skipped@, old(self).next_row_id as int, i as int)
                    &&& final(self).prev_row_id == Some(i)
                    &&& final(self).next_row_id == i + 1
                    &&& final(self).eof_reached == old(self).eof_reached
                },
                None => {
                    &&& all_skipped(skipped@, old(self).next_row_id as int, skipped@.len() as int)
                    &&& final(self).prev_row_id == old(self).prev_row_id
                    &&& final(self).next_row_id == if old(self).next_row_id < skipped@.len() {
                        skipped@.len() as int
                    } else {
                        old(self).next_row_id as int
                    }
                    &&& final(self).eof_reached
                },
            },
    {
        let ghost start = self.next_row_id;
        while self.next_row_id < skipped.len()
            invariant
                start <= self.next_row_id,
                start < skipped@.len() ==> self.next_row_id <= skipped@.len(),
                start >= skipped@.len() ==> self.next_row_id == start,
                all_skipped(skipped@, start as int, self.next_row_id as int),
                self.prev_row_id == old(self).prev_row_id,
                self.eof_reached == old(self).eof_reached,
                start == old(self).next_row_id,
            decreases skipped@.len() - self.next_row_id,
        {
            let i = self.next_row_id;
            if !skipped[i] {
                self.prev_row_id = Some(i);
                self.next_row_id = i + 1;
                return Some(i);
            }
            self.next_row_id = i + 1;
        }
        self.eof_reached = true;
        None
    }

    /// Returns to the row returned last, so that it comes again.
    pub fn step_back(&mut self)
        requires
            old(self).prev_row_id is Some,
        ensures
            final(self).next_row_id == old(self).prev_row_id.unwrap(),
            final(self).prev_row_id is None,
            !final(self).eof_reached,
    {
        match self.prev_row_id {
            Some(i) => self.next_row_id = i,
            None => {},
        }
        self.prev_row_id = None;
        self.eof_reached = false;
    }

    /// Skips rows up to the next one that is neither skipped nor empty
    /// (`empty[i]` tells for row `i`), which then comes next.
    pub fn skip_empty_rows(&mut self, skipped: &Vec<bool>, empty: &Vec<bool>)
        requires
            empty@.len() == skipped@.len(),
        ensures
            forall|j: int| old(self).next_row_id <= j < final(self).next_row_id && j < skipped@.len() ==> #[trigger] skipped@[j] || empty@[j],
            final(self).next_row_id < skipped@.len() ==> !skipped@[final(self).next_row_id as int] && !empty@[final(self).next_row_id as int] && !final(self).eof_reached,
            final(self).next_row_id >= skipped@.len() ==> final(self).eof_reached || old(self).next_row_id >= skipped@.len(),
    {
        let ghost start = self.next_row_id;
        loop
            invariant
                empty@.len() == skipped@.len(),
                start == old(self).next_row_id,
                start <= self.next_row_id,
                forall|j: int| start <= j < self.next_row_id && j < skipped@.len() ==> #[trigger] skipped@[j] || empty@[j],
            decreases skipped@.len() - self.next_row_id,
        {
            match self.next_row(skipped) {
                Some(i) => {
                    if !empty[i] {
                        self.step_back();
                        return;
                    }
                },
                None => {
                    return;
                },
            }
        }
    }

    /// The row that an error found at this position refers to: the one read
    /// last, unless nothing was read yet or the end was reached.
    pub fn error_row(&self) -> (r: Option<usize>)
        ensures
            r == if self.next_row_id == 0 || self.eof_reached {
                None
            } else {
                Some((self.next_row_id - 1) as usize)
            },
    {
        if self.next_row_id == 0 || self.eof_reached {
            None
        } else {
            Some(self.next_row_id - 1)
        }
    }
}

} // verus!
