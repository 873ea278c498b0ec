use vstd::prelude::*;
use crate::chunks::TextRange;
use crate::document::{changes_after, replay_changes, Document};
use crate::language_tool::{LTCodeActionCheckText, LTCodeActionRemoveDiagnostic, LTDiagnostic};
use crate::position::{column_at, line_at};
use crate::protocol::{LspDiagnostic, LspPosition, LspRange};
use crate::strings::{dec_digits, usize_to_string};

verus! {

/// Which checker a diagnostic came from.
#[derive(Clone, Copy, PartialEq, Eq, Structural, Debug)]
pub enum DiagnosticSource {
    LanguageTool,
}

/// Checker-specific data carried by a diagnostic, keyed by its source.
#[derive(Debug, PartialEq)]
pub enum DiagnosticSourceData {
    LanguageTool(LTDiagnostic),
    Other,
}

/// One live diagnostic, anchored to the document version it was computed
/// against; `correct_range` re-anchors or invalidates it on publish.
#[derive(Debug, PartialEq)]
pub struct Diagnostic {
    pub range: TextRange,
    pub version: isize,
    pub diagnostics_lsp: LspDiagnostic,
    pub source_data: DiagnosticSourceData,
    pub source: DiagnosticSource,
}

/// A stored code action, waiting to be executed by its command identifier.
#[derive(Debug, PartialEq)]
pub enum CodeActionSource {
    LanguageToolCheckText(LTCodeActionCheckText),
    LanguageToolRemoveDiagnostics(LTCodeActionRemoveDiagnostic),
}

/// Where a diagnostic's range lives in the current text, after replaying
/// every edit recorded since its version.
pub open spec fn corrected_range_of(d: Diagnostic, doc: Document) -> Option<TextRange> {
    replay_changes(changes_after(doc.source_change@, d.version), d.range, doc.text@.len() as int)
}

/// Whether a diagnostic can still be published: replaying every later edit
/// left its range valid, and the range's coordinates fit the protocol.
pub open spec fn publishable(d: Diagnostic, doc: Document) -> bool {
    match corrected_range_of(d, doc) {
        Some(cr) => {
            &&& cr.start <= doc.text@.len()
            &&& cr.end <= doc.text@.len()
            &&& line_at(doc.text@, cr.start as int) <= u32::MAX
            &&& column_at(doc.text@, cr.start as int) <= u32::MAX
            &&& line_at(doc.text@, cr.end as int) <= u32::MAX
            &&& column_at(doc.text@, cr.end as int) <= u32::MAX
        },
        None => false,
    }
}

/// The protocol range a publishable diagnostic is published at.
pub open spec fn published_range(d: Diagnostic, doc: Document) -> LspRange {
    let cr = corrected_range_of(d, doc)->Some_0;
    LspRange {
        start: LspPosition {
            line: line_at(doc.text@, cr.start as int) as u32,
            character: column_at(doc.text@, cr.start as int) as u32,
        },
        end: LspPosition {
            line: line_at(doc.text@, cr.end as int) as u32,
            character: column_at(doc.text@, cr.end as int) as u32,
        },
    }
}

impl Diagnostic {
    /// The diagnostic re-expressed against the current text, or `None` when
    /// a later edit has invalidated it.
    pub fn corrected_diagnostics_lsp(&self, document: &Document) -> (r: Option<LspDiagnostic>)
        requires
            document.wf(),
        ensures
            r is Some <==> publishable(*self, *document),
            r is Some ==> (r->Some_0.range == published_range(*self, *document)
                && r->Some_0.message@ == self.diagnostics_lsp.message@),
    {
        let corrected_range = match document.correct_range(self.version, self.range) {
            Some(c) => c,
            None => {
                return None;
            },
        };
        let lsp_range = match document.byte_range_to_lsp_range(&corrected_range) {
            Some(c) => c,
            None => {
                return None;
            },
        };
        Some(LspDiagnostic { range: lsp_range, message: self.diagnostics_lsp.message.clone() })
    }
}

/// The diagnostics of a store that are still publishable, in order.
pub open spec fn kept_diagnostics(ds: Seq<Diagnostic>, doc: Document) -> Seq<Diagnostic>
    decreases ds.len(),
{
    if ds.len() == 0 {
        Seq::empty()
    } else {
        let rest = kept_diagnostics(ds.drop_last(), doc);
        if publishable(ds.last(), doc) {
            rest.push(ds.last())
        } else {
            rest
        }
    }
}

/// Re-anchor every stored diagnostic against the current text and keep the
/// survivors: what the server publishes.
pub fn get_lsp_diagnostics(store: &Vec<Diagnostic>, document: &Document) -> (r: Vec<LspDiagnostic>)
    requires
        document.wf(),
    ensures
        r@.len() == kept_diagnostics(store@, *document).len(),
        forall|k: int|
            0 <= k < r@.len() ==> (#[trigger] r@[k]).range == published_range(
                kept_diagnostics(store@, *document)[k],
                *document,
            ) && r@[k].message@ == kept_diagnostics(
                store@,
                *document,
            )[k].diagnostics_lsp.message@,
{
    let mut out: Vec<LspDiagnostic> = Vec::new();
    let mut i: usize = 0;
    proof {
        assert(store@.take(0) =~= Seq::<Diagnostic>::empty());
    }
    while i < store.len()
        invariant
            document.wf(),
            i <= store@.len(),
            out@.len() == kept_diagnostics(store@.take(i as int), *document).len(),
            forall|k: int|
                0 <= k < out@.len() ==> (#[trigger] out@[k]).range == published_range(
                    kept_diagnostics(store@.take(i as int), *document)[k],
                    *document,
                ) && out@[k].message@ == kept_diagnostics(
                    store@.take(i as int),
                    *document,
                )[k].diagnostics_lsp.message@,
        decreases store@.len() - i,
    {
        proof {
            assert(store@.take(i + 1).drop_last() =~= store@.take(i as int));
            assert(store@.take(i + 1).last() == store@[i as int]);
        }
        match store[i].corrected_diagnostics_lsp(document) {
            Some(l) => {
                out.push(l);
            },
            None => {
            },
        }
        i = i + 1;
    }
    proof {
        assert(store@.take(store@.len() as int) =~= store@);
    }
    out
}

/// The diagnostics that do not come from the given source, in order.
pub open spec fn without_source(ds: Seq<Diagnostic>, typ: DiagnosticSource) -> Seq<Diagnostic>
    decreases ds.len(),
{
    if ds.len() == 0 {
        Seq::empty()
    } else {
        let rest = without_source(ds.drop_first(), typ);
        if ds[0].source != typ {
            seq![ds[0]] + rest
        } else {
            rest
        }
    }
}

/// Drop every stored diagnostic of the given source, keeping the others in
/// order: how a fresh check run replaces its predecessor's results.
pub fn remove_lsp_diagnostics_of_type(store: &mut Vec<Diagnostic>, typ: DiagnosticSource)
    ensures
        final(store)@ == without_source(old(store)@, typ),
{
    let ghost orig = store@;
    let mut kept: Vec<Diagnostic> = Vec::new();
    proof {
        assert(kept@ + without_source(store@, typ) =~= without_source(orig, typ));
    }
    while store.len() > 0
        invariant
            kept@ + without_source(store@, typ) == without_source(orig, typ),
        decreases store@.len(),
    {
        let ghost before = store@;
        let d = store.remove(0);
        proof {
            assert(before.remove(0) =~= before.drop_first());
        }
        if !(d.source == typ) {
            kept.push(d);
            proof {
                assert(kept@ + without_source(store@, typ) =~= without_source(orig, typ));
            }
        }
    }
    proof {
        assert(without_source(store@, typ) =~= Seq::<Diagnostic>::empty());
        assert(kept@ =~= kept@ + Seq::<Diagnostic>::empty());
    }
    *store = kept;
}

// ---- publishing the checkable chunks themselves, for inspection ----

/// The overview message published for one checkable chunk.
pub open spec fn mark_message(text: Seq<char>, c: TextRange) -> Seq<char> {
    "startLine: "@ + dec_digits(line_at(text, c.start as int)) + ", startChar: "@ + dec_digits(
        column_at(text, c.start as int),
    ) + " | endLine: "@ + dec_digits(line_at(text, c.end as int)) + ", endChar: "@ + dec_digits(
        column_at(text, c.end as int),
    ) + " | content: \""@ + text.subrange(c.start as int, c.end as int) + "\""@
}

/// Whether a chunk still lies within the text with protocol-sized
/// coordinates.
pub open spec fn chunk_fits(doc: Document, c: TextRange) -> bool {
    &&& c.start <= c.end <= doc.text@.len()
    &&& line_at(doc.text@, c.start as int) <= u32::MAX
    &&& column_at(doc.text@, c.start as int) <= u32::MAX
    &&& line_at(doc.text@, c.end as int) <= u32::MAX
    &&& column_at(doc.text@, c.end as int) <= u32::MAX
}

/// The overview diagnostic published for one chunk.
pub open spec fn marked_ok(l: LspDiagnostic, doc: Document, c: TextRange) -> bool {
    &&& l.range.start.line == line_at(doc.text@, c.start as int)
    &&& l.range.start.character == column_at(doc.text@, c.start as int)
    &&& l.range.end.line == line_at(doc.text@, c.end as int)
    &&& l.range.end.character == column_at(doc.text@, c.end as int)
    &&& l.message@ == mark_message(doc.text@, c)
}

/// The overview diagnostic for one chunk, or `None` when the chunk no
/// longer lies within the text or its coordinates do not fit the protocol.
fn mark_one(document: &Document, a: TextRange) -> (r: Option<LspDiagnostic>)
    requires
        document.wf(),
    ensures
        match r {
            Some(l) => chunk_fits(*document, a) && marked_ok(l, *document, a),
            None => !chunk_fits(*document, a),
        },
{
    let n: usize = document.text.unicode_len();
    if !(a.start <= a.end && a.end <= n) {
        return None;
    }
    let (line1, character1) = match document.range_to_line_character(a.start) {
        Some(c) => c,
        None => {
            proof {
                assert(false);
            }
            (0, 0)
        },
    };
    let (line2, character2) = match document.range_to_line_character(a.end) {
        Some(c) => c,
        None => {
            proof {
                assert(false);
            }
            (0, 0)
        },
    };
    if !(line1 <= u32::MAX as usize && character1 <= u32::MAX as usize && line2
        <= u32::MAX as usize && character2 <= u32::MAX as usize) {
        return None;
    }
    let b = match document.get_chunk_by_range(a) {
        Some(c) => c,
        None => {
            proof {
                assert(false);
            }
            String::new()
        },
    };
    let mut message = String::from_str("startLine: ");
    message.append(usize_to_string(line1).as_str());
    message.append(", startChar: ");
    message.append(usize_to_string(character1).as_str());
    message.append(" | endLine: ");
    message.append(usize_to_string(line2).as_str());
    message.append(", endChar: ");
    message.append(usize_to_string(character2).as_str());
    message.append(" | content: \"");
    message.append(b.as_str());
    message.append("\"");
    proof {
        assert(message@ =~= mark_message(document.text@, a));
    }
    Some(
        LspDiagnostic {
            range: LspRange {
                start: LspPosition { line: line1 as u32, character: character1 as u32 },
                end: LspPosition { line: line2 as u32, character: character2 as u32 },
            },
            message,
        },
    )
}

/// One overview diagnostic per checkable chunk that still lies within the
/// text, stating the chunk's coordinates and content. A chunk that has
/// fallen out of the text since it was gathered is skipped.
pub fn mark_text(document: &Document) -> (r: Vec<LspDiagnostic>)
    requires
        document.wf(),
    ensures
        r@.len() <= document.text_chunks@.len(),
        (forall|i: int|
            0 <= i < document.text_chunks@.len() ==> chunk_fits(
                *document,
                #[trigger] document.text_chunks@[i],
            )) ==> {
            &&& r@.len() == document.text_chunks@.len()
            &&& forall|i: int|
                0 <= i < r@.len() ==> marked_ok(
                    #[trigger] r@[i],
                    *document,
                    document.text_chunks@[i],
                )
        },
{
    let mut out: Vec<LspDiagnostic> = Vec::new();
    let mut i: usize = 0;
    while i < document.text_chunks.len()
        invariant
            document.wf(),
            i <= document.text_chunks@.len(),
            out@.len() <= i,
            (forall|j: int|
                0 <= j < i ==> chunk_fits(*document, #[trigger] document.text_chunks@[j])) ==> {
                &&& out@.len() == i
                &&& forall|j: int|
                    0 <= j < i ==> marked_ok(
                        #[trigger] out@[j],
                        *document,
                        document.text_chunks@[j],
                    )
            },
        decreases document.text_chunks@.len() - i,
    {
        let a = document.text_chunks[i];
        match mark_one(document, a) {
            Some(l) => {
                out.push(l);
            },
            None => {
            },
        }
        i = i + 1;
    }
    out
}

} // verus!
