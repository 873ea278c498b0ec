use vstd::prelude::*;
use crate::chunks::{cleanup_range, parse_recursive, separated, sorted_by_start, within, TextRange};
use crate::convert::SyntaxNode;
use crate::diagnostics::Diagnostic;
use crate::position::{column_at, line_at, lemma_line_col_bounds};
use crate::protocol::{LspDiagnostic, LspPosition, LspRange};

verus! {

/// One recorded edit: the character range it replaced and the net length
/// change of the document, `delta = new_text_length - (range.end - range.start)`.
#[derive(Clone, Copy, PartialEq, Eq, Structural, Debug)]
pub struct SourceChange {
    pub range: TextRange,
    pub delta: isize,
}

/// All edits recorded for one version of the document.
#[derive(Debug, PartialEq)]
pub struct VersionChanges {
    pub version: isize,
    pub changes: Vec<SourceChange>,
}

/// Whether character offset `p` is the position with the given line and
/// column in `text`. At most one offset is (see `lemma_position_unique`).
pub open spec fn is_position(text: Seq<char>, p: int, line: int, column: int) -> bool {
    &&& 0 <= p <= text.len()
    &&& line_at(text, p) == line
    &&& column_at(text, p) == column
}

pub proof fn lemma_line_at_monotone(text: Seq<char>, p: int, q: int)
    requires
        0 <= p <= q,
    ensures
        line_at(text, p) <= line_at(text, q),
    decreases q,
{
    if p < q {
        lemma_line_at_monotone(text, p, q - 1);
    }
}

proof fn lemma_no_newline_flat(text: Seq<char>, p: int, q: int)
    requires
        0 <= p <= q,
        forall|k: int| p <= k < q ==> text[k] != '\n',
    ensures
        line_at(text, q) == line_at(text, p),
        column_at(text, q) == column_at(text, p) + (q - p),
    decreases q - p,
{
    if p < q {
        lemma_no_newline_flat(text, p, q - 1);
    }
}

proof fn lemma_newline_bumps_line(text: Seq<char>, p: int, q: int, k: int)
    requires
        0 <= p <= k < q,
        text[k] == '\n',
    ensures
        line_at(text, q) > line_at(text, p),
    decreases q,
{
    if k == q - 1 {
        lemma_line_at_monotone(text, p, q - 1);
    } else {
        lemma_newline_bumps_line(text, p, q - 1, k);
    }
}

/// Distinct offsets have distinct (line, column) coordinates.
pub proof fn lemma_position_unique(text: Seq<char>, p: int, q: int)
    requires
        0 <= p < q,
    ensures
        line_at(text, p) != line_at(text, q) || column_at(text, p) != column_at(text, q),
{
    if exists|k: int| p <= k < q && text[k] == '\n' {
        let k = choose|k: int| p <= k < q && text[k] == '\n';
        lemma_newline_bumps_line(text, p, q, k);
    } else {
        lemma_no_newline_flat(text, p, q);
    }
}

// ---- replaying recorded edits over a historical range ----

/// Replay a list of recorded changes, in chronological order, over a range
/// captured before any of them. A change whose end exceeds the current
/// buffer length invalidates the range (defensive bound check); a change
/// overlapping the range invalidates it; a change at or before the range's
/// start shifts the range by the change's delta; a change after the range
/// leaves it alone. A shift that would leave `usize` also invalidates.
pub open spec fn replay_changes(changes: Seq<SourceChange>, r: TextRange, len: int) -> Option<
    TextRange,
>
    decreases changes.len(),
{
    if changes.len() == 0 {
        Some(r)
    } else {
        let c = changes[0];
        if c.range.end > len {
            None
        } else if c.range.start < r.end && r.start < c.range.end {
            None
        } else if r.start < c.range.start {
            replay_changes(changes.drop_first(), r, len)
        } else {
            let ns = r.start + c.delta;
            let ne = r.end + c.delta;
            if 0 <= ns && ns <= usize::MAX && 0 <= ne && ne <= usize::MAX {
                replay_changes(
                    changes.drop_first(),
                    TextRange { start: ns as usize, end: ne as usize },
                    len,
                )
            } else {
                None
            }
        }
    }
}

/// Replaying a concatenation replays the pieces in order.
pub proof fn lemma_replay_append(c1: Seq<SourceChange>, c2: Seq<SourceChange>, r: TextRange, len: int)
    ensures
        replay_changes(c1 + c2, r, len) == match replay_changes(c1, r, len) {
            Some(mid) => replay_changes(c2, mid, len),
            None => None::<TextRange>,
        },
    decreases c1.len(),
{
    if c1.len() == 0 {
        assert(c1 + c2 =~= c2);
    } else {
        assert((c1 + c2)[0] == c1[0]);
        assert((c1 + c2).drop_first() =~= c1.drop_first() + c2);
        let c = c1[0];
        if c.range.end > len {
        } else if c.range.start < r.end && r.start < c.range.end {
        } else if r.start < c.range.start {
            lemma_replay_append(c1.drop_first(), c2, r, len);
        } else {
            let ns = r.start + c.delta;
            let ne = r.end + c.delta;
            if 0 <= ns && ns <= usize::MAX && 0 <= ne && ne <= usize::MAX {
                lemma_replay_append(
                    c1.drop_first(),
                    c2,
                    TextRange { start: ns as usize, end: ne as usize },
                    len,
                );
            }
        }
    }
}

/// The changes recorded after `version`, in chronological order.
pub open spec fn changes_after(log: Seq<VersionChanges>, version: isize) -> Seq<SourceChange>
    decreases log.len(),
{
    if log.len() == 0 {
        Seq::empty()
    } else if log[0].version > version {
        log[0].changes@ + changes_after(log.drop_first(), version)
    } else {
        changes_after(log.drop_first(), version)
    }
}

pub open spec fn versions_sorted(log: Seq<VersionChanges>) -> bool {
    forall|i: int, j: int|
        0 <= i < j < log.len() ==> (#[trigger] log[i]).version < (#[trigger] log[j]).version
}

/// The first chunk whose range contains the offset, endpoints included.
pub open spec fn first_chunk_at(chunks: Seq<TextRange>, p: int) -> Option<TextRange>
    decreases chunks.len(),
{
    if chunks.len() == 0 {
        None
    } else if chunks[0].start <= p <= chunks[0].end {
        Some(chunks[0])
    } else {
        first_chunk_at(chunks.drop_first(), p)
    }
}

/// Appending a fresh log entry appends its changes to every replay that
/// covers its version.
proof fn lemma_changes_after_push(log: Seq<VersionChanges>, entry: VersionChanges, v: isize)
    ensures
        changes_after(log.push(entry), v) == if entry.version > v {
            changes_after(log, v) + entry.changes@
        } else {
            changes_after(log, v)
        },
    decreases log.len(),
{
    let lhs = changes_after(log.push(entry), v);
    if log.len() == 0 {
        assert(log.push(entry)[0] == entry);
        assert(log.push(entry).drop_first() =~= Seq::<VersionChanges>::empty());
        if entry.version > v {
            assert(lhs =~= entry.changes@ + changes_after(Seq::<VersionChanges>::empty(), v));
            assert(lhs =~= changes_after(log, v) + entry.changes@);
        } else {
            assert(lhs =~= changes_after(Seq::<VersionChanges>::empty(), v));
            assert(lhs =~= changes_after(log, v));
        }
    } else {
        assert(log.push(entry)[0] == log[0]);
        assert(log.push(entry).drop_first() =~= log.drop_first().push(entry));
        lemma_changes_after_push(log.drop_first(), entry, v);
        if entry.version > v {
            if log[0].version > v {
                assert(lhs =~= log[0].changes@ + changes_after(log.drop_first().push(entry), v));
                assert(lhs =~= (log[0].changes@ + changes_after(log.drop_first(), v))
                    + entry.changes@);
                assert(lhs =~= changes_after(log, v) + entry.changes@);
            } else {
                assert(lhs =~= changes_after(log.drop_first(), v) + entry.changes@);
                assert(lhs =~= changes_after(log, v) + entry.changes@);
            }
        } else {
            if log[0].version > v {
                assert(lhs =~= log[0].changes@ + changes_after(log.drop_first(), v));
                assert(lhs =~= changes_after(log, v));
            } else {
                assert(lhs =~= changes_after(log, v));
            }
        }
    }
}

/// Pushing one more change onto the last log entry appends it to every
/// replay that covers that entry's version.
proof fn lemma_changes_after_last(
    old_log: Seq<VersionChanges>,
    new_log: Seq<VersionChanges>,
    change: SourceChange,
    v: isize,
)
    requires
        old_log.len() > 0,
        new_log.len() == old_log.len(),
        new_log.drop_last() == old_log.drop_last(),
        new_log.last().version == old_log.last().version,
        new_log.last().changes@ == old_log.last().changes@.push(change),
    ensures
        changes_after(new_log, v) == if old_log.last().version > v {
            changes_after(old_log, v).push(change)
        } else {
            changes_after(old_log, v)
        },
    decreases old_log.len(),
{
    if old_log.len() == 1 {
        assert(new_log[0] == new_log.last());
        assert(old_log[0] == old_log.last());
        assert(new_log.drop_first() =~= Seq::<VersionChanges>::empty());
        assert(old_log.drop_first() =~= Seq::<VersionChanges>::empty());
        if old_log.last().version > v {
            assert(new_log[0].changes@ + changes_after(Seq::<VersionChanges>::empty(), v)
                =~= new_log[0].changes@);
            assert(old_log[0].changes@ + changes_after(Seq::<VersionChanges>::empty(), v)
                =~= old_log[0].changes@);
            assert(changes_after(new_log, v) =~= changes_after(old_log, v).push(change));
        }
    } else {
        assert(new_log[0] == new_log.drop_last()[0]);
        assert(old_log[0] == old_log.drop_last()[0]);
        assert(new_log[0] == old_log[0]);
        assert(new_log.drop_first().drop_last() =~= old_log.drop_first().drop_last()) by {
            assert forall|i: int|
                0 <= i < new_log.drop_first().drop_last().len() implies new_log.drop_first().drop_last()[i]
                == old_log.drop_first().drop_last()[i] by {
                assert(new_log.drop_first().drop_last()[i] == new_log.drop_last()[i + 1]);
                assert(old_log.drop_first().drop_last()[i] == old_log.drop_last()[i + 1]);
            }
        }
        assert(new_log.drop_first().last() == new_log.last());
        assert(old_log.drop_first().last() == old_log.last());
        lemma_changes_after_last(old_log.drop_first(), new_log.drop_first(), change, v);
        if old_log[0].version > v {
            if old_log.last().version > v {
                assert(new_log[0].changes@ + changes_after(old_log.drop_first(), v).push(change)
                    =~= (old_log[0].changes@ + changes_after(old_log.drop_first(), v)).push(
                    change,
                ));
            }
        }
    }
}

/// The live document: the authoritative text, the checkable chunks found in
/// its parsed tree, its diagnostics, and a per-version log of edits.
pub struct Document {
    pub text: String,
    pub text_chunks: Vec<TextRange>,
    pub diagnostics: Vec<Diagnostic>,
    pub diagnostics_lsp: Vec<LspDiagnostic>,
    pub source_change: Vec<VersionChanges>,
    pub latest_version: isize,
}

impl Document {
    pub open spec fn wf(&self) -> bool {
        &&& self.text@.len() <= usize::MAX
        &&& versions_sorted(self.source_change@)
        &&& forall|i: int|
            0 <= i < self.source_change@.len() ==> (#[trigger] self.source_change@[i]).version
                <= self.latest_version
        &&& separated(self.text_chunks@)
        &&& sorted_by_start(self.text_chunks@)
        &&& forall|i: int|
            0 <= i < self.text_chunks@.len() ==> (#[trigger] self.text_chunks@[i]).end
                - self.text_chunks@[i].start > 2
    }

    /// Open a document: remember the text, gather and clean up its checkable
    /// chunks from the parsed tree, and start an empty edit log. The
    /// parser's spans must lie within the text.
    #[verifier::rlimit(100)]
    #[verifier::spinoff_prover]
    pub fn new(version: isize, in_str: &str, root: &SyntaxNode) -> (r: Self)
        requires
            crate::chunks::node_spans_within(root@, in_str@.len() as int),
        ensures
            forall|k: int|
                0 <= k < r.text_chunks@.len() ==> (#[trigger] r.text_chunks@[k]).start
                    < r.text_chunks@[k].end <= r.text@.len(),
            r.wf(),
            r.text@ == in_str@,
            r.latest_version == version,
            r.source_change@ =~= Seq::<VersionChanges>::empty(),
            r.diagnostics@ =~= Seq::<Diagnostic>::empty(),
            forall|j: int|
                0 <= j < crate::chunks::parse_spec(root@).len() && (#[trigger] crate::chunks::parse_spec(
                    root@,
                )[j]).end - crate::chunks::parse_spec(root@)[j].start > 2
                    ==> crate::chunks::covered_by(crate::chunks::parse_spec(root@)[j], r.text_chunks@),
            forall|k: int|
                0 <= k < r.text_chunks@.len() ==> crate::chunks::start_from(
                    #[trigger] r.text_chunks@[k],
                    crate::chunks::parse_spec(root@),
                ) && crate::chunks::end_from(r.text_chunks@[k], crate::chunks::parse_spec(root@)),
    {
        let n: usize = in_str.unicode_len();
        let dirty_ranges = parse_recursive(root);
        proof {
            crate::chunks::lemma_parse_spec_bounded(root@, in_str@.len() as int);
        }
        let clean_ranges = cleanup_range(dirty_ranges);
        proof {
            assert forall|k: int|
                0 <= k < clean_ranges@.len() implies (#[trigger] clean_ranges@[k]).start
                < clean_ranges@[k].end <= in_str@.len() by {
                assert(crate::chunks::end_from(clean_ranges@[k], dirty_ranges@));
                let j = choose|j: int|
                    0 <= j < dirty_ranges@.len() && clean_ranges@[k].end == (
                    #[trigger] dirty_ranges@[j]).end;
            }
        }
        Document {
            text: in_str.to_owned(),
            text_chunks: clean_ranges,
            diagnostics: Vec::new(),
            diagnostics_lsp: Vec::new(),
            source_change: Vec::new(),
            latest_version: version,
        }
    }

    /// The character offset of a protocol position, walking the text from
    /// the start; `None` when no offset in the text has those coordinates.
    pub fn line_column_to_byte(&self, line: usize, column: usize) -> (r: Option<usize>)
        requires
            self.wf(),
        ensures
            match r {
                Some(p) => is_position(self.text@, p as int, line as int, column as int),
                None => forall|p: int|
                    !is_position(self.text@, p, line as int, column as int),
            },
    {
        let n: usize = self.text.unicode_len();
        let mut p: usize = 0;
        let mut cur_line: usize = 0;
        let mut cur_col: usize = 0;
        loop
            invariant
                p <= n,
                n == self.text@.len(),
                self.text@.len() <= usize::MAX,
                cur_line == line_at(self.text@, p as int),
                cur_col == column_at(self.text@, p as int),
                forall|q: int|
                    0 <= q < p ==> !is_position(self.text@, q, line as int, column as int),
            decreases n - p,
        {
            if cur_line == line && cur_col == column {
                return Some(p);
            }
            if p == n {
                proof {
                    assert forall|q: int| !is_position(
                        self.text@,
                        q,
                        line as int,
                        column as int,
                    ) by {
                        if 0 <= q <= self.text@.len() {
                            assert(q < p || q == p);
                        }
                    }
                }
                return None;
            }
            proof {
                lemma_line_col_bounds(self.text@, p as int);
            }
            let c = self.text.as_str().get_char(p);
            if c == '\n' {
                cur_line = cur_line + 1;
                cur_col = 0;
            } else {
                cur_col = cur_col + 1;
            }
            p = p + 1;
        }
    }

    /// The (line, column) coordinates of a character offset, or `None` when
    /// the offset lies outside the text.
    pub fn range_to_line_character(&self, r: usize) -> (res: Option<(usize, usize)>)
        requires
            self.wf(),
        ensures
            match res {
                Some(lc) => r <= self.text@.len() && lc.0 == line_at(self.text@, r as int)
                    && lc.1 == column_at(self.text@, r as int),
                None => r > self.text@.len(),
            },
    {
        let n: usize = self.text.unicode_len();
        if r > n {
            return None;
        }
        let mut p: usize = 0;
        let mut cur_line: usize = 0;
        let mut cur_col: usize = 0;
        while p < r
            invariant
                p <= r <= n,
                n == self.text@.len(),
                self.text@.len() <= usize::MAX,
                cur_line == line_at(self.text@, p as int),
                cur_col == column_at(self.text@, p as int),
            decreases r - p,
        {
            proof {
                lemma_line_col_bounds(self.text@, p as int);
            }
            let c = self.text.as_str().get_char(p);
            if c == '\n' {
                cur_line = cur_line + 1;
                cur_col = 0;
            } else {
                cur_col = cur_col + 1;
            }
            p = p + 1;
        }
        Some((cur_line, cur_col))
    }

    /// Convert a protocol range into a character range; `None` when either
    /// endpoint lies outside the text.
    pub fn lsp_range_to_byte_range(&self, range: &LspRange) -> (r: Option<TextRange>)
        requires
            self.wf(),
        ensures
            match r {
                Some(tr) => is_position(
                    self.text@,
                    tr.start as int,
                    range.start.line as int,
                    range.start.character as int,
                ) && is_position(
                    self.text@,
                    tr.end as int,
                    range.end.line as int,
                    range.end.character as int,
                ),
                None => (forall|p: int|
                    !is_position(
                        self.text@,
                        p,
                        range.start.line as int,
                        range.start.character as int,
                    )) || (forall|p: int|
                    !is_position(self.text@, p, range.end.line as int, range.end.character as int)),
            },
    {
        let start = match self.line_column_to_byte(
            range.start.line as usize,
            range.start.character as usize,
        ) {
            Some(c) => c,
            None => {
                return None;
            },
        };
        let end = match self.line_column_to_byte(
            range.end.line as usize,
            range.end.character as usize,
        ) {
            Some(c) => c,
            None => {
                return None;
            },
        };
        Some(TextRange { start, end })
    }

    /// Convert a character range into a protocol range; `None` when an
    /// endpoint lies outside the text or a coordinate does not fit the
    /// protocol's 32-bit fields.
    pub fn byte_range_to_lsp_range(&self, range: &TextRange) -> (r: Option<LspRange>)
        requires
            self.wf(),
        ensures
            match r {
                Some(lr) => {
                    &&& range.start <= self.text@.len()
                    &&& range.end <= self.text@.len()
                    &&& lr.start.line == line_at(self.text@, range.start as int)
                    &&& lr.start.character == column_at(self.text@, range.start as int)
                    &&& lr.end.line == line_at(self.text@, range.end as int)
                    &&& lr.end.character == column_at(self.text@, range.end as int)
                },
                None => range.start > self.text@.len() || range.end > self.text@.len() || line_at(
                    self.text@,
                    range.start as int,
                ) > u32::MAX || column_at(self.text@, range.start as int) > u32::MAX || line_at(
                    self.text@,
                    range.end as int,
                ) > u32::MAX || column_at(self.text@, range.end as int) > u32::MAX,
            },
    {
        let (l1, c1) = match self.range_to_line_character(range.start) {
            Some(c) => c,
            None => {
                return None;
            },
        };
        let (l2, c2) = match self.range_to_line_character(range.end) {
            Some(c) => c,
            None => {
                return None;
            },
        };
        if l1 > u32::MAX as usize || c1 > u32::MAX as usize || l2 > u32::MAX as usize || c2
            > u32::MAX as usize {
            return None;
        }
        Some(
            LspRange {
                start: LspPosition { line: l1 as u32, character: c1 as u32 },
                end: LspPosition { line: l2 as u32, character: c2 as u32 },
            },
        )
    }

    /// Bounds-checked substring fetch.
    pub fn get_chunk_by_range(&self, range: TextRange) -> (r: Option<String>)
        requires
            self.wf(),
        ensures
            match r {
                Some(s) => range.start <= range.end <= self.text@.len() && s@ == self.text@.subrange(
                    range.start as int,
                    range.end as int,
                ),
                None => !(range.start <= range.end <= self.text@.len()),
            },
    {
        let n: usize = self.text.unicode_len();
        if range.start <= range.end && range.end <= n {
            Some(self.text.as_str().substring_char(range.start, range.end).to_owned())
        } else {
            None
        }
    }

    /// The first checkable chunk containing the given offset.
    fn chunk_by_byte_index(&self, byte_index: usize) -> (r: Option<TextRange>)
        ensures
            r == first_chunk_at(self.text_chunks@, byte_index as int),
    {
        let mut i: usize = 0;
        proof {
            assert(self.text_chunks@.skip(0) =~= self.text_chunks@);
        }
        while i < self.text_chunks.len()
            invariant
                i <= self.text_chunks@.len(),
                first_chunk_at(self.text_chunks@, byte_index as int) == first_chunk_at(
                    self.text_chunks@.skip(i as int),
                    byte_index as int,
                ),
            decreases self.text_chunks@.len() - i,
        {
            proof {
                assert(self.text_chunks@.skip(i as int)[0] == self.text_chunks@[i as int]);
                assert(self.text_chunks@.skip(i as int).drop_first() =~= self.text_chunks@.skip(
                    i as int + 1,
                ));
            }
            let r = self.text_chunks[i];
            if within(byte_index, &r) {
                return Some(r);
            }
            i = i + 1;
        }
        proof {
            assert(self.text_chunks@.skip(self.text_chunks@.len() as int).len() == 0);
        }
        None
    }

    /// The text of the first checkable chunk under a protocol position;
    /// `None` when the position lies outside the text, under no chunk, or
    /// under a chunk that has fallen out of the text.
    pub fn get_chunk_at_pos(&self, pos: &LspPosition) -> (r: Option<String>)
        requires
            self.wf(),
        ensures
            match r {
                Some(s) => exists|p: int|
                    {
                        &&& #[trigger] is_position(
                            self.text@,
                            p,
                            pos.line as int,
                            pos.character as int,
                        )
                        &&& match first_chunk_at(self.text_chunks@, p) {
                            Some(c) => c.start <= c.end <= self.text@.len() && s@
                                == self.text@.subrange(c.start as int, c.end as int),
                            None => false,
                        }
                    },
                None => forall|p: int|
                    #[trigger] is_position(self.text@, p, pos.line as int, pos.character as int)
                        ==> match first_chunk_at(self.text_chunks@, p) {
                        Some(c) => !(c.start <= c.end <= self.text@.len()),
                        None => true,
                    },
            },
    {
        let byte_index = match self.line_column_to_byte(pos.line as usize, pos.character as usize) {
            Some(c) => c,
            None => {
                return None;
            },
        };
        proof {
            assert forall|p: int|
                #[trigger] is_position(
                    self.text@,
                    p,
                    pos.line as int,
                    pos.character as int,
                ) implies p == byte_index as int by {
                if p < byte_index as int {
                    lemma_position_unique(self.text@, p, byte_index as int);
                } else if p > byte_index as int {
                    lemma_position_unique(self.text@, byte_index as int, p);
                }
            }
        }
        let range = match self.chunk_by_byte_index(byte_index) {
            Some(c) => c,
            None => {
                return None;
            },
        };
        self.get_chunk_by_range(range)
    }

    /// Append one recorded change to the log under `version` and advance the
    /// current version.
    fn record_change(&mut self, version: isize, change: SourceChange)
        requires
            versions_sorted(old(self).source_change@),
            forall|i: int|
                0 <= i < old(self).source_change@.len() ==> (#[trigger] old(self).source_change@[i]).version <= old(self).latest_version,
            version >= old(self).latest_version,
        ensures
            final(self).text == old(self).text,
            final(self).text_chunks == old(self).text_chunks,
            final(self).diagnostics == old(self).diagnostics,
            final(self).diagnostics_lsp == old(self).diagnostics_lsp,
            final(self).latest_version == version,
            versions_sorted(final(self).source_change@),
            forall|i: int|
                0 <= i < final(self).source_change@.len() ==> (#[trigger] final(self).source_change@[i]).version <= version,
            forall|v: isize|
                v < version ==> changes_after(final(self).source_change@, v) == changes_after(
                    old(self).source_change@,
                    v,
                ).push(change),
            forall|v: isize|
                v >= version ==> changes_after(final(self).source_change@, v) == changes_after(
                    old(self).source_change@,
                    v,
                ),
    {
        self.latest_version = version;
        let log_len = self.source_change.len();
        let same_version = log_len > 0 && self.source_change[log_len - 1].version == version;
        if same_version {
            let ghost old_log = self.source_change@;
            let mut last = self.source_change.pop().unwrap();
            last.changes.push(change);
            self.source_change.push(last);
            proof {
                assert(self.source_change@.drop_last() =~= old_log.drop_last());
                assert(self.source_change@.len() == old_log.len());
                assert forall|i: int, j: int|
                    0 <= i < j < self.source_change@.len() implies (#[trigger] self.source_change@[i]).version
                    < (#[trigger] self.source_change@[j]).version by {
                    if j < self.source_change@.len() - 1 {
                        assert(self.source_change@[i] == old_log[i]);
                        assert(self.source_change@[j] == old_log[j]);
                    } else {
                        assert(self.source_change@[i] == old_log[i]);
                        assert(self.source_change@.last().version == old_log.last().version);
                    }
                }
                assert forall|i: int|
                    0 <= i < self.source_change@.len() implies (#[trigger] self.source_change@[i]).version
                    <= version by {
                    if i < self.source_change@.len() - 1 {
                        assert(self.source_change@[i] == old_log[i]);
                    }
                }
                assert forall|v: isize| true implies #[trigger] changes_after(
                    self.source_change@,
                    v,
                ) == (if version > v {
                    changes_after(old_log, v).push(change)
                } else {
                    changes_after(old_log, v)
                }) by {
                    lemma_changes_after_last(old_log, self.source_change@, change, v);
                }
            }
        } else {
            let ghost old_log = self.source_change@;
            let mut changes: Vec<SourceChange> = Vec::new();
            changes.push(change);
            let entry = VersionChanges { version, changes };
            self.source_change.push(entry);
            proof {
                assert(self.source_change@.drop_last() =~= old_log);
                assert forall|v: isize| true implies #[trigger] changes_after(
                    self.source_change@,
                    v,
                ) == (if version > v {
                    changes_after(old_log, v) + self.source_change@.last().changes@
                } else {
                    changes_after(old_log, v)
                }) by {
                    lemma_changes_after_push(old_log, self.source_change@.last(), v);
                    assert(self.source_change@ =~= old_log.push(self.source_change@.last()));
                }
                assert forall|v: isize| v < version implies changes_after(
                    self.source_change@,
                    v,
                ) == changes_after(old_log, v).push(change) by {
                    assert(self.source_change@.last().changes@ =~= seq![change]);
                    assert(changes_after(old_log, v) + seq![change] =~= changes_after(
                        old_log,
                        v,
                    ).push(change));
                }
            }
        }
    }

    /// Record an edit: replace `range` in the live text, log the source
    /// change under this version, and advance the current version. Versions
    /// must be monotonically increasing.
    pub fn change(&mut self, version: isize, range: TextRange, new_text: &str)
        requires
            old(self).wf(),
            version >= old(self).latest_version,
            range.start <= range.end <= old(self).text@.len(),
            range.end - range.start <= isize::MAX,
            new_text@.len() <= isize::MAX,
            old(self).text@.len() - (range.end - range.start) + new_text@.len() <= usize::MAX,
        ensures
            final(self).wf(),
            final(self).text@ == old(self).text@.subrange(0, range.start as int) + new_text@
                + old(self).text@.subrange(range.end as int, old(self).text@.len() as int),
            final(self).latest_version == version,
            final(self).text_chunks@ == old(self).text_chunks@,
            final(self).diagnostics == old(self).diagnostics,
            forall|v: isize|
                v < version ==> changes_after(final(self).source_change@, v) == changes_after(
                    old(self).source_change@,
                    v,
                ).push(
                    SourceChange {
                        range,
                        delta: (new_text@.len() - (range.end - range.start)) as isize,
                    },
                ),
            forall|v: isize|
                v >= version ==> changes_after(final(self).source_change@, v) == changes_after(
                    old(self).source_change@,
                    v,
                ),
    {
        let n: usize = self.text.unicode_len();
        let prefix = self.text.as_str().substring_char(0, range.start).to_owned();
        let suffix = self.text.as_str().substring_char(range.end, n).to_owned();
        let mut new_full = prefix;
        new_full.append(new_text);
        new_full.append(suffix.as_str());
        self.text = new_full;
        let replaced_len: usize = range.end - range.start;
        let new_len: usize = new_text.unicode_len();
        let delta: isize = (new_len as isize) - (replaced_len as isize);
        self.record_change(version, SourceChange { range, delta });
    }

    /// Re-anchor a range captured at `version` against every change recorded
    /// since, or report that a later edit invalidated it.
    pub fn correct_range(&self, version: isize, range: TextRange) -> (r: Option<TextRange>)
        requires
            self.wf(),
        ensures
            r == replay_changes(
                changes_after(self.source_change@, version),
                range,
                self.text@.len() as int,
            ),
    {
        let n: usize = self.text.unicode_len();
        let mut cur = range;
        let mut oi: usize = 0;
        proof {
            assert(self.source_change@.skip(0) =~= self.source_change@);
        }
        while oi < self.source_change.len()
            invariant
                oi <= self.source_change@.len(),
                self.wf(),
                n == self.text@.len(),
                replay_changes(
                    changes_after(self.source_change@, version),
                    range,
                    self.text@.len() as int,
                ) == replay_changes(
                    changes_after(self.source_change@.skip(oi as int), version),
                    cur,
                    self.text@.len() as int,
                ),
            decreases self.source_change@.len() - oi,
        {
            proof {
                let log = self.source_change@;
                assert(log.skip(oi as int)[0] == log[oi as int]);
                assert(log.skip(oi as int).drop_first() =~= log.skip(oi as int + 1));
            }
            let entry = &self.source_change[oi];
            if entry.version > version {
                proof {
                    lemma_replay_append(
                        entry.changes@,
                        changes_after(self.source_change@.skip(oi as int + 1), version),
                        cur,
                        self.text@.len() as int,
                    );
                }
                let mut ci: usize = 0;
                proof {
                    assert(entry.changes@.skip(0) =~= entry.changes@);
                }
                while ci < entry.changes.len()
                    invariant
                        ci <= entry.changes@.len(),
                        n == self.text@.len(),
                        replay_changes(
                            changes_after(self.source_change@, version),
                            range,
                            self.text@.len() as int,
                        ) == match replay_changes(
                            entry.changes@.skip(ci as int),
                            cur,
                            self.text@.len() as int,
                        ) {
                            Some(mid) => replay_changes(
                                changes_after(self.source_change@.skip(oi as int + 1), version),
                                mid,
                                self.text@.len() as int,
                            ),
                            None => None::<TextRange>,
                        },
                    decreases entry.changes@.len() - ci,
                {
                    proof {
                        assert(entry.changes@.skip(ci as int)[0] == entry.changes@[ci as int]);
                        assert(entry.changes@.skip(ci as int).drop_first() =~= entry.changes@.skip(
                            ci as int + 1,
                        ));
                    }
                    let change = &entry.changes[ci];
                    if change.range.end > n {
                        return None;
                    }
                    if change.range.start < cur.end && cur.start < change.range.end {
                        return None;
                    }
                    if !(cur.start < change.range.start) {
                        if change.delta >= 0 {
                            let d = change.delta as usize;
                            if cur.start > usize::MAX - d || cur.end > usize::MAX - d {
                                return None;
                            }
                            cur = TextRange { start: cur.start + d, end: cur.end + d };
                        } else {
                            let d = if change.delta == isize::MIN {
                                (isize::MAX as usize) + 1
                            } else {
                                (-change.delta) as usize
                            };
                            if cur.start < d || cur.end < d {
                                return None;
                            }
                            cur = TextRange { start: cur.start - d, end: cur.end - d };
                        }
                    }
                    ci = ci + 1;
                }
            }
            oi = oi + 1;
        }
        proof {
            assert(self.source_change@.skip(self.source_change@.len() as int).len() == 0);
        }
        Some(cur)
    }
}


// ---- the stated law of correct_range ----

/// Whether every recorded change can be replayed over the tracked range
/// without invalidating it: each change stays within the buffer, none
/// overlaps the range as shifted by the changes before it, and no shift
/// leaves `usize`.
pub open spec fn compatible(changes: Seq<SourceChange>, r: TextRange, len: int) -> bool
    decreases changes.len(),
{
    if changes.len() == 0 {
        true
    } else {
        let c = changes[0];
        &&& c.range.end <= len
        &&& !(c.range.start < r.end && r.start < c.range.end)
        &&& if r.start < c.range.start {
            compatible(changes.drop_first(), r, len)
        } else {
            &&& 0 <= r.start + c.delta <= usize::MAX
            &&& 0 <= r.end + c.delta <= usize::MAX
            &&& compatible(
                changes.drop_first(),
                TextRange { start: (r.start + c.delta) as usize, end: (r.end + c.delta) as usize },
                len,
            )
        }
    }
}

/// The sum of the deltas of the changes that start at or before the tracked
/// range, each taken at the moment the range, shifted by the changes before
/// it, meets it.
pub open spec fn applied_delta(changes: Seq<SourceChange>, r: TextRange, len: int) -> int
    decreases changes.len(),
{
    if changes.len() == 0 {
        0
    } else {
        let c = changes[0];
        if r.start < c.range.start {
            applied_delta(changes.drop_first(), r, len)
        } else {
            c.delta + applied_delta(
                changes.drop_first(),
                TextRange { start: (r.start + c.delta) as usize, end: (r.end + c.delta) as usize },
                len,
            )
        }
    }
}

/// For any sequence of recorded edits that never intersects a tracked
/// range, replaying moves the range by exactly the sum of the deltas of
/// the edits at or before it, preserving its width; and whenever an edit
/// intersects the range (or a bound check fails), replaying invalidates it.
pub proof fn lemma_correct_range_law(changes: Seq<SourceChange>, r: TextRange, len: int)
    ensures
        compatible(changes, r, len) ==> replay_changes(changes, r, len) == Some(
            TextRange {
                start: (r.start + applied_delta(changes, r, len)) as usize,
                end: (r.end + applied_delta(changes, r, len)) as usize,
            },
        ),
        !compatible(changes, r, len) ==> replay_changes(changes, r, len) is None,
    decreases changes.len(),
{
    if changes.len() == 0 {
        assert(TextRange { start: (r.start + 0) as usize, end: (r.end + 0) as usize } == r);
    } else {
        let c = changes[0];
        if c.range.end > len {
        } else if c.range.start < r.end && r.start < c.range.end {
        } else if r.start < c.range.start {
            lemma_correct_range_law(changes.drop_first(), r, len);
        } else {
            if 0 <= r.start + c.delta <= usize::MAX && 0 <= r.end + c.delta <= usize::MAX {
                let shifted = TextRange {
                    start: (r.start + c.delta) as usize,
                    end: (r.end + c.delta) as usize,
                };
                lemma_correct_range_law(changes.drop_first(), shifted, len);
            }
        }
    }
}


// ---- finding the word under the cursor ----

/// Relies on char::is_alphabetic: the result depends on the character alone.
pub uninterp spec fn char_alphabetic(c: char) -> bool;

#[verifier::external_body]
fn is_alphabetic_char(c: char) -> (r: bool)
    ensures
        r == char_alphabetic(c),
{
    c.is_alphabetic()
}

/// Relies on char::is_whitespace: the result depends on the character alone.
pub uninterp spec fn char_whitespace(c: char) -> bool;

#[verifier::external_body]
fn is_whitespace_char(c: char) -> (r: bool)
    ensures
        r == char_whitespace(c),
{
    c.is_whitespace()
}

/// Relies on String::push: appends exactly the one character.
#[verifier::external_body]
fn push_char(s: &mut String, c: char)
    ensures
        final(s)@ == old(s)@.push(c),
{
    s.push(c);
}

/// The first offset at or past `p` that ends its line: a newline or the
/// text's end.
pub open spec fn line_end_from(text: Seq<char>, p: int) -> int
    decreases text.len() - p,
{
    if p >= text.len() || text[p] == '\n' {
        p
    } else {
        line_end_from(text, p + 1)
    }
}

/// The offset where the whitespace-delimited token around `c` begins, not
/// reaching before `line_start`.
pub open spec fn token_start_spec(text: Seq<char>, line_start: int, c: int) -> int
    decreases c,
{
    if c <= line_start || c <= 0 || char_whitespace(text[c - 1]) {
        c
    } else {
        token_start_spec(text, line_start, c - 1)
    }
}

/// The offset just past the whitespace-delimited token around `c`, not
/// reaching past `line_end`.
pub open spec fn token_end_spec(text: Seq<char>, line_end: int, c: int) -> int
    decreases line_end - c,
{
    if c >= line_end || char_whitespace(text[c]) {
        c
    } else {
        token_end_spec(text, line_end, c + 1)
    }
}

/// The alphabetic characters of a sequence, in order.
pub open spec fn alpha_only(s: Seq<char>) -> Seq<char>
    decreases s.len(),
{
    if s.len() == 0 {
        Seq::empty()
    } else {
        let rest = alpha_only(s.drop_last());
        if char_alphabetic(s.last()) {
            rest.push(s.last())
        } else {
            rest
        }
    }
}

/// The word under a protocol position: `None` when the line does not exist,
/// the column lies past the line's end, or the character there is not
/// alphabetic; otherwise the surrounding whitespace-delimited token (grown
/// left only when the previous character is alphabetic, right only when the
/// next one is), reduced to its alphabetic characters.
pub open spec fn find_word_spec(text: Seq<char>, line: int, column: int) -> Option<Seq<char>> {
    if !(exists|p: int| is_position(text, p, line, 0)) {
        None
    } else {
        let ls = choose|p: int| is_position(text, p, line, 0);
        let le = line_end_from(text, ls);
        if column >= le - ls {
            None
        } else {
            let cursor = ls + column;
            if !char_alphabetic(text[cursor]) {
                None
            } else {
                let ts = if column >= 1 && char_alphabetic(text[cursor - 1]) {
                    token_start_spec(text, ls, cursor)
                } else {
                    cursor
                };
                let te = if cursor + 1 < le && char_alphabetic(text[cursor + 1]) {
                    token_end_spec(text, le, cursor + 1)
                } else {
                    cursor + 1
                };
                let w = alpha_only(text.subrange(ts, te));
                if w.len() == 0 {
                    None
                } else {
                    Some(w)
                }
            }
        }
    }
}

impl Document {
    /// The word under the given position, exactly as `find_word_spec`
    /// describes it: the surrounding whitespace-delimited token, reduced to
    /// its alphabetic characters; `None` when the position lies outside the
    /// text or not on an alphabetic character.
    #[verifier::rlimit(60)]
    pub fn find_word(&self, pos: LspPosition) -> (r: Option<String>)
        requires
            self.wf(),
        ensures
            match r {
                Some(w) => find_word_spec(self.text@, pos.line as int, pos.character as int)
                    == Some(w@) && w@.len() > 0 && forall|i: int|
                    0 <= i < w@.len() ==> char_alphabetic(#[trigger] w@[i]),
                None => find_word_spec(self.text@, pos.line as int, pos.character as int) is None,
            },
    {
        let ghost text = self.text@;
        let n: usize = self.text.unicode_len();
        let line_start = match self.line_column_to_byte(pos.line as usize, 0) {
            Some(c) => c,
            None => {
                return None;
            },
        };
        proof {
            assert forall|p: int|
                #[trigger] is_position(text, p, pos.line as int, 0) implies p
                == line_start as int by {
                if p < line_start as int {
                    lemma_position_unique(text, p, line_start as int);
                } else if p > line_start as int {
                    lemma_position_unique(text, line_start as int, p);
                }
            }
            assert((choose|p: int| is_position(text, p, pos.line as int, 0))
                == line_start as int);
        }
        // the end of the line: the next newline, or the end of the text
        let mut line_end = line_start;
        while line_end < n && self.text.as_str().get_char(line_end) != '\n'
            invariant
                line_start <= line_end <= n,
                n == text.len(),
                text == self.text@,
                self.wf(),
                line_end_from(text, line_start as int) == line_end_from(text, line_end as int),
            decreases n - line_end,
        {
            line_end = line_end + 1;
        }
        proof {
            assert(line_end_from(text, line_end as int) == line_end as int);
        }
        let char_num = pos.character as usize;
        if char_num >= line_end - line_start {
            return None;
        }
        let cursor = line_start + char_num;
        if !is_alphabetic_char(self.text.as_str().get_char(cursor)) {
            return None;
        }
        // expand to the surrounding whitespace-delimited token
        let mut token_start = cursor;
        if char_num >= 1 && is_alphabetic_char(self.text.as_str().get_char(cursor - 1)) {
            while token_start > line_start && !is_whitespace_char(
                self.text.as_str().get_char(token_start - 1),
            )
                invariant
                    line_start <= token_start <= cursor,
                    cursor < n,
                    n == text.len(),
                    text == self.text@,
                    self.wf(),
                    token_start_spec(text, line_start as int, cursor as int) == token_start_spec(
                        text,
                        line_start as int,
                        token_start as int,
                    ),
                decreases token_start,
            {
                token_start = token_start - 1;
            }
            proof {
                assert(token_start_spec(text, line_start as int, token_start as int)
                    == token_start as int);
            }
        }
        let mut token_end = cursor + 1;
        if cursor + 1 < line_end && is_alphabetic_char(self.text.as_str().get_char(cursor + 1)) {
            while token_end < line_end && !is_whitespace_char(
                self.text.as_str().get_char(token_end),
            )
                invariant
                    cursor < token_end <= line_end <= n,
                    n == text.len(),
                    text == self.text@,
                    self.wf(),
                    token_end_spec(text, line_end as int, cursor + 1) == token_end_spec(
                        text,
                        line_end as int,
                        token_end as int,
                    ),
                decreases line_end - token_end,
            {
                token_end = token_end + 1;
            }
            proof {
                assert(token_end_spec(text, line_end as int, token_end as int)
                    == token_end as int);
            }
        }
        // keep the token's alphabetic characters
        let mut word = String::new();
        let mut p = token_start;
        proof {
            assert(text.subrange(token_start as int, token_start as int)
                =~= Seq::<char>::empty());
        }
        while p < token_end
            invariant
                token_start <= p <= token_end <= n,
                n == text.len(),
                text == self.text@,
                self.wf(),
                word@ == alpha_only(text.subrange(token_start as int, p as int)),
            decreases token_end - p,
        {
            proof {
                assert(text.subrange(token_start as int, p + 1).drop_last() =~= text.subrange(
                    token_start as int,
                    p as int,
                ));
                assert(text.subrange(token_start as int, p + 1).last() == text[p as int]);
            }
            let c = self.text.as_str().get_char(p);
            if is_alphabetic_char(c) {
                push_char(&mut word, c);
            }
            p = p + 1;
        }
        proof {
            lemma_alpha_only_alphabetic(text.subrange(token_start as int, token_end as int));
        }
        if word.as_str().unicode_len() == 0 {
            return None;
        }
        Some(word)
    }
}

/// Every character the filter keeps is alphabetic.
proof fn lemma_alpha_only_alphabetic(s: Seq<char>)
    ensures
        forall|i: int| 0 <= i < alpha_only(s).len() ==> char_alphabetic(#[trigger] alpha_only(s)[i]),
    decreases s.len(),
{
    if s.len() > 0 {
        lemma_alpha_only_alphabetic(s.drop_last());
        let rest = alpha_only(s.drop_last());
        assert forall|i: int| 0 <= i < alpha_only(s).len() implies char_alphabetic(
            #[trigger] alpha_only(s)[i],
        ) by {
            if char_alphabetic(s.last()) {
                if i < alpha_only(s).len() - 1 {
                    assert(alpha_only(s)[i] == rest[i]);
                }
            } else {
                assert(alpha_only(s)[i] == rest[i]);
            }
        }
    }
}

} // verus!
