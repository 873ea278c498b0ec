use vstd::prelude::*;

verus! {

/// Number of newline characters among the first `pos` characters of `text`.
pub open spec fn line_at(text: Seq<char>, pos: int) -> int
    decreases pos,
{
    if pos <= 0 {
        0
    } else {
        line_at(text, pos - 1) + if text[pos - 1] == '\n' {
            1int
        } else {
            0int
        }
    }
}

/// Number of characters between `pos` and the nearest newline before it.
pub open spec fn column_at(text: Seq<char>, pos: int) -> int
    decreases pos,
{
    if pos <= 0 {
        0
    } else if text[pos - 1] == '\n' {
        0
    } else {
        column_at(text, pos - 1) + 1
    }
}

pub proof fn lemma_line_col_bounds(text: Seq<char>, pos: int)
    requires
        0 <= pos,
    ensures
        0 <= line_at(text, pos) <= pos,
        0 <= column_at(text, pos) <= pos,
    decreases pos,
{
    if pos > 0 {
        lemma_line_col_bounds(text, pos - 1);
    }
}

/// Cursor over the original document text that reconstructs line/column
/// coordinates from a running count of consumed characters.
pub struct PositionLogic {
    pub line: usize,
    pub column: usize,
    pub content: String,
    pub consumed: usize,
}

impl PositionLogic {
    pub open spec fn wf(&self) -> bool {
        &&& self.consumed <= self.content@.len() <= usize::MAX
        &&& self.line == line_at(self.content@, self.consumed as int)
        &&& self.column == column_at(self.content@, self.consumed as int)
    }

    pub fn new(content: &str) -> (r: Self)
        ensures
            r.wf(),
            r.content@ == content@,
            r.consumed == 0,
            r.line == 0,
            r.column == 0,
    {
        let n: usize = content.unicode_len();
        PositionLogic { line: 0, column: 0, content: content.to_owned(), consumed: 0 }
    }

    /// Consume exactly `amount` characters, tracking line and column.
    /// The caller must never advance the cursor past the end of the text.
    pub fn advance(&mut self, amount: usize)
        requires
            old(self).wf(),
            old(self).consumed + amount <= old(self).content@.len(),
        ensures
            final(self).wf(),
            final(self).content@ == old(self).content@,
            final(self).consumed == old(self).consumed + amount,
    {
        let mut i: usize = 0;
        while i < amount
            invariant
                self.wf(),
                self.content@ == old(self).content@,
                i <= amount,
                self.consumed == old(self).consumed + i,
                old(self).consumed + amount <= self.content@.len(),
            decreases amount - i,
        {
            proof {
                lemma_line_col_bounds(self.content@, self.consumed as int);
            }
            let c = self.content.as_str().get_char(self.consumed);
            if c == '\n' {
                self.line = self.line + 1;
                self.column = 0;
            } else {
                self.column = self.column + 1;
            }
            self.consumed = self.consumed + 1;
            i = i + 1;
        }
    }

    /// A copy of the cursor, so an end position can be computed without
    /// moving the shared advancing cursor.
    pub fn clone(&self) -> (r: Self)
        ensures
            r.line == self.line,
            r.column == self.column,
            r.consumed == self.consumed,
            r.content@ == self.content@,
    {
        PositionLogic {
            line: self.line,
            column: self.column,
            content: self.content.clone(),
            consumed: self.consumed,
        }
    }
}

} // verus!
