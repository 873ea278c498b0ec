use vstd::prelude::*;
use crate::chunks::TextRange;
use crate::diagnostics::{
    publishable, published_range, CodeActionSource, Diagnostic, DiagnosticSource,
    DiagnosticSourceData,
};
use crate::document::{is_position, lemma_position_unique, Document};
use crate::position::{column_at, lemma_line_col_bounds, line_at, PositionLogic};
use crate::protocol::{
    CodeAction, CodeActionOrCommand, Command, LspDiagnostic, LspPosition, LspRange, TextEdit,
    WorkspaceEdit,
};

verus! {

/// A replacement the checker suggests for a flagged span.
#[derive(Debug, PartialEq)]
pub struct Replacement {
    pub value: String,
}

/// The checker rule behind a match.
#[derive(Debug, PartialEq)]
pub struct Rule {
    pub description: String,
    pub issue_type: String,
}

/// The slice of checked text around a match, with the match's place in it.
#[derive(Debug, PartialEq)]
pub struct MatchContext {
    pub text: String,
    pub offset: usize,
    pub length: usize,
}

/// One match returned by the grammar checker: an offset and length relative
/// to the checked text of its batch, a message, suggested replacements, the
/// rule that fired, and the surrounding context.
#[derive(Debug, PartialEq)]
pub struct CheckMatch {
    pub offset: usize,
    pub length: usize,
    pub message: String,
    pub replacements: Vec<Replacement>,
    pub rule: Rule,
    pub context: MatchContext,
}

/// The checker-specific payload a diagnostic keeps for its code actions.
#[derive(Debug, PartialEq)]
pub struct LTDiagnostic {
    pub replacements: Vec<Replacement>,
    pub rule: Rule,
}

/// A whole check run's results, kept together.
#[derive(Debug, PartialEq)]
pub struct TextCheck {
    pub diagnostic: Vec<Diagnostic>,
    pub matches: Vec<MatchChunk>,
}

/// One chunk's matches, with the language the checker detected.
#[derive(Debug, PartialEq)]
pub struct MatchChunk {
    pub matches: Vec<Match>,
    pub language_code: String,
}

/// One raw checker match, as received.
#[derive(Debug, PartialEq)]
pub struct Match {
    pub match_data: CheckMatch,
}

/// The stored request to re-check a document.
#[derive(Debug, PartialEq)]
pub struct LTCodeActionCheckText {
    pub uri: String,
}

/// The stored request to drop the checker's diagnostics for a document.
#[derive(Debug, PartialEq)]
pub struct LTCodeActionRemoveDiagnostic {
    pub uri: String,
}

fn clone_replacements(v: &Vec<Replacement>) -> (r: Vec<Replacement>)
    ensures
        r@.len() == v@.len(),
        forall|i: int| 0 <= i < v@.len() ==> (#[trigger] r@[i]).value@ == v@[i].value@,
{
    let mut r: Vec<Replacement> = Vec::new();
    let mut i: usize = 0;
    while i < v.len()
        invariant
            i <= v@.len(),
            r@.len() == i,
            forall|j: int| 0 <= j < i ==> (#[trigger] r@[j]).value@ == v@[j].value@,
        decreases v@.len() - i,
    {
        r.push(Replacement { value: v[i].value.clone() });
        i = i + 1;
    }
    r
}

fn clone_rule(r: &Rule) -> (out: Rule)
    ensures
        out.description@ == r.description@,
        out.issue_type@ == r.issue_type@,
{
    Rule { description: r.description.clone(), issue_type: r.issue_type.clone() }
}

/// Whether a diagnostic's payload mirrors a checker match.
pub open spec fn lt_data_matches(d: DiagnosticSourceData, m: CheckMatch) -> bool {
    match d {
        DiagnosticSourceData::LanguageTool(lt) => {
            &&& lt.rule.description@ == m.rule.description@
            &&& lt.rule.issue_type@ == m.rule.issue_type@
            &&& lt.replacements@.len() == m.replacements@.len()
            &&& forall|i: int|
                0 <= i < m.replacements@.len() ==> (#[trigger] lt.replacements@[i]).value@
                    == m.replacements@[i].value@
        },
        _ => false,
    }
}

/// Well-formedness of a checker response against the batch it answers: the
/// match offsets are ordered and, together with their lengths, stay within
/// the document text from the batch's starting position `base`, and the
/// batch's declared total reaches past the last match.
pub open spec fn matches_wf(ms: Seq<CheckMatch>, base: int, total: int, len: int) -> bool {
    &&& base + total <= len
    &&& forall|i: int|
        0 <= i < ms.len() ==> base + (#[trigger] ms[i]).offset + ms[i].length <= len
    &&& forall|i: int|
        0 <= i < ms.len() - 1 ==> (#[trigger] ms[i]).offset <= ms[i + 1].offset
    &&& (ms.len() > 0 ==> ms[ms.len() - 1].offset <= total)
}

/// The document-relative projection of one match: its range is the match's
/// offsets shifted by the batch's starting position; the protocol range
/// carries that range's line/column coordinates; messages and checker
/// payload are carried over; the diagnostic is anchored at the version the
/// batch was computed against.
pub open spec fn projected_ok(
    text: Seq<char>,
    version: isize,
    base: int,
    m: CheckMatch,
    d: Diagnostic,
    l: LspDiagnostic,
) -> bool {
    let s = base + m.offset;
    let e = s + m.length;
    &&& d.range == TextRange { start: s as usize, end: e as usize }
    &&& d.version == version
    &&& d.source == DiagnosticSource::LanguageTool
    &&& lt_data_matches(d.source_data, m)
    &&& d.diagnostics_lsp.message@ == m.message@
    &&& d.diagnostics_lsp.range == l.range
    &&& l.message@ == m.message@
    &&& l.range.start.line == line_at(text, s)
    &&& l.range.start.character == column_at(text, s)
    &&& l.range.end.line == line_at(text, e)
    &&& l.range.end.character == column_at(text, e)
}

/// Check a response against the batch it answers.
pub fn check_matches(matches: &Vec<CheckMatch>, base: usize, total: usize, len: usize) -> (b: bool)
    ensures
        b == matches_wf(matches@, base as int, total as int, len as int),
{
    if !(total <= usize::MAX - base && base + total <= len) {
        return false;
    }
    let m_len = matches.len();
    if m_len > 0 && !(matches[m_len - 1].offset <= total) {
        return false;
    }
    let mut i: usize = 0;
    while i < m_len
        invariant
            i <= matches@.len(),
            m_len == matches@.len(),
            forall|j: int|
                0 <= j < i ==> base + (#[trigger] matches@[j]).offset + matches@[j].length <= len,
            forall|j: int|
                0 <= j < i && j < matches@.len() - 1 ==> (#[trigger] matches@[j]).offset
                    <= matches@[j + 1].offset,
        decreases matches@.len() - i,
    {
        let m = &matches[i];
        if !(m.offset <= usize::MAX - base && m.length <= usize::MAX - base - m.offset && base
            + m.offset + m.length <= len) {
            return false;
        }
        if i + 1 < m_len && !(m.offset <= matches[i + 1].offset) {
            return false;
        }
        i = i + 1;
    }
    true
}

/// Combine one batch's checker matches with the shared position cursor into
/// document-anchored diagnostics. A response that does not fit the batch
/// (offsets out of order or out of bounds) fails this batch alone: nothing
/// is emitted and the cursor is moved to the batch's end where possible,
/// so later batches stay unharmed.
#[verifier::rlimit(100)]
pub fn add_chunk(
    document: &Document,
    start: &mut PositionLogic,
    matches: &Vec<CheckMatch>,
    total: usize,
) -> (r: (Vec<Diagnostic>, Vec<LspDiagnostic>))
    requires
        document.wf(),
        old(start).wf(),
        old(start).content@ == document.text@,
        document.text@.len() <= u32::MAX,
    ensures
        final(start).wf(),
        final(start).content@ == document.text@,
        matches_wf(
            matches@,
            old(start).consumed as int,
            total as int,
            document.text@.len() as int,
        ) ==> {
            &&& final(start).consumed == old(start).consumed + total
            &&& r.0@.len() == matches@.len()
            &&& r.1@.len() == matches@.len()
            &&& forall|i: int|
                0 <= i < matches@.len() ==> projected_ok(
                    document.text@,
                    document.latest_version,
                    old(start).consumed as int,
                    matches@[i],
                    #[trigger] r.0@[i],
                    r.1@[i],
                )
        },
        !matches_wf(
            matches@,
            old(start).consumed as int,
            total as int,
            document.text@.len() as int,
        ) ==> {
            &&& r.0@.len() == 0
            &&& r.1@.len() == 0
            &&& (old(start).consumed + total <= document.text@.len() ==> final(start).consumed
                == old(start).consumed + total)
            &&& (old(start).consumed + total > document.text@.len() ==> final(start).consumed
                == old(start).consumed)
        },
{
    let n: usize = document.text.unicode_len();
    let base: usize = start.consumed;
    let mut out_diags: Vec<Diagnostic> = Vec::new();
    let mut out_lsp: Vec<LspDiagnostic> = Vec::new();
    if !check_matches(matches, base, total, n) {
        if total <= n && base <= n - total {
            start.advance(total);
        }
        return (out_diags, out_lsp);
    }
    let ghost base_g = base as int;
    let ghost text = document.text@;
    let mut i: usize = 0;
    let mut last: usize = 0;
    while i < matches.len()
        invariant
            document.wf(),
            i <= matches@.len(),
            matches_wf(matches@, base_g, total as int, text.len() as int),
            text == document.text@,
            text.len() <= u32::MAX,
            start.wf(),
            start.content@ == text,
            base_g + total <= text.len(),
            last == if i == 0 {
                0int
            } else {
                matches@[i - 1].offset as int
            },
            start.consumed == base_g + last,
            out_diags@.len() == i,
            out_lsp@.len() == i,
            forall|k: int|
                0 <= k < i ==> projected_ok(
                    text,
                    document.latest_version,
                    base_g,
                    matches@[k],
                    #[trigger] out_diags@[k],
                    out_lsp@[k],
                ),
        decreases matches@.len() - i,
    {
        let m = &matches[i];
        proof {
            if i > 0 {
                assert(matches@[i - 1].offset <= matches@[i as int].offset);
            }
            assert(base_g + m.offset + m.length <= text.len());
        }
        start.advance(m.offset - last);
        let mut end_cur = start.clone();
        end_cur.advance(m.length);
        proof {
            lemma_line_col_bounds(text, start.consumed as int);
            lemma_line_col_bounds(text, end_cur.consumed as int);
        }
        let lsp_range = LspRange {
            start: LspPosition { line: start.line as u32, character: start.column as u32 },
            end: LspPosition { line: end_cur.line as u32, character: end_cur.column as u32 },
        };
        let lsp_d = LspDiagnostic { range: lsp_range, message: m.message.clone() };
        let s_off = match document.line_column_to_byte(start.line, start.column) {
            Some(c) => c,
            None => {
                proof {
                    assert(is_position(
                        text,
                        start.consumed as int,
                        start.line as int,
                        start.column as int,
                    ));
                    assert(false);
                }
                0
            },
        };
        let e_off = match document.line_column_to_byte(end_cur.line, end_cur.column) {
            Some(c) => c,
            None => {
                proof {
                    assert(is_position(
                        text,
                        end_cur.consumed as int,
                        end_cur.line as int,
                        end_cur.column as int,
                    ));
                    assert(false);
                }
                0
            },
        };
        proof {
            lemma_position_agree(text, s_off as int, start.consumed as int);
            lemma_position_agree(text, e_off as int, end_cur.consumed as int);
        }
        out_diags.push(
            Diagnostic {
                range: TextRange { start: s_off, end: e_off },
                version: document.latest_version,
                diagnostics_lsp: lsp_d.clone(),
                source_data: DiagnosticSourceData::LanguageTool(
                    LTDiagnostic {
                        replacements: clone_replacements(&m.replacements),
                        rule: clone_rule(&m.rule),
                    },
                ),
                source: DiagnosticSource::LanguageTool,
            },
        );
        out_lsp.push(lsp_d);
        last = m.offset;
        i = i + 1;
    }
    proof {
        if matches@.len() > 0 {
            assert(matches@[matches@.len() - 1].offset <= total);
        }
    }
    start.advance(total - last);
    (out_diags, out_lsp)
}

/// Two offsets with the same line/column coordinates are the same offset.
proof fn lemma_position_agree(text: Seq<char>, p: int, q: int)
    requires
        0 <= p <= text.len(),
        0 <= q <= text.len(),
        line_at(text, p) == line_at(text, q),
        column_at(text, p) == column_at(text, q),
    ensures
        p == q,
{
    if p < q {
        lemma_position_unique(text, p, q);
    } else if q < p {
        lemma_position_unique(text, q, p);
    }
}

// ---- filtering misspellings already covered by a dictionary ----

/// The word a match's context flags: the characters between the context's
/// offset and the end of the flagged span, with the context's own clamping
/// (an offset beyond the text falls back to its start; an end beyond the
/// text falls back to its end).
pub open spec fn context_word(ctx: MatchContext) -> Seq<char> {
    let t = ctx.text@;
    if ctx.offset < t.len() {
        if ctx.length >= 1 && ctx.offset + ctx.length < t.len() {
            t.subrange(ctx.offset as int, ctx.offset + ctx.length)
        } else {
            t.subrange(ctx.offset as int, t.len() as int)
        }
    } else {
        t
    }
}

pub open spec fn dict_contains(dict: Seq<String>, w: Seq<char>) -> bool {
    exists|i: int| 0 <= i < dict.len() && (#[trigger] dict[i])@ == w
}

/// Whether a match survives the dictionary filter: everything but a
/// misspelling passes; a misspelling passes only when the flagged word is
/// not in the dictionary.
pub open spec fn keep_match(m: CheckMatch, dict: Seq<String>) -> bool {
    m.rule.issue_type@ != "misspelling"@ || !dict_contains(dict, context_word(m.context))
}

pub open spec fn filter_spec(ms: Seq<CheckMatch>, dict: Seq<String>) -> Seq<CheckMatch>
    decreases ms.len(),
{
    if ms.len() == 0 {
        Seq::empty()
    } else {
        let rest = filter_spec(ms.drop_first(), dict);
        if keep_match(ms[0], dict) {
            seq![ms[0]] + rest
        } else {
            rest
        }
    }
}

fn word_of_context(ctx: &MatchContext) -> (w: String)
    ensures
        w@ == context_word(*ctx),
{
    let t_len = ctx.text.unicode_len();
    if ctx.offset < t_len {
        if ctx.length >= 1 && ctx.length < t_len - ctx.offset {
            ctx.text.as_str().substring_char(ctx.offset, ctx.offset + ctx.length).to_owned()
        } else {
            ctx.text.as_str().substring_char(ctx.offset, t_len).to_owned()
        }
    } else {
        ctx.text.clone()
    }
}

fn dict_lookup(dict: &Vec<String>, w: &String) -> (b: bool)
    ensures
        b == dict_contains(dict@, w@),
{
    let mut i: usize = 0;
    while i < dict.len()
        invariant
            i <= dict@.len(),
            forall|j: int| 0 <= j < i ==> (#[trigger] dict@[j])@ != w@,
        decreases dict@.len() - i,
    {
        if dict[i] == *w {
            proof {
                assert(dict@[i as int]@ == w@);
            }
            return true;
        }
        i = i + 1;
    }
    false
}

/// Drop every misspelling match whose flagged word the dictionary already
/// covers; all other matches pass through unchanged, in order.
pub fn filter_response(matches: Vec<CheckMatch>, dict: &Vec<String>) -> (out: Vec<CheckMatch>)
    ensures
        out@ == filter_spec(matches@, dict@),
{
    let ghost orig = matches@;
    let mut remaining = matches;
    let mut out: Vec<CheckMatch> = Vec::new();
    let misspelling = String::from_str("misspelling");
    proof {
        assert(out@ + filter_spec(remaining@, dict@) =~= filter_spec(orig, dict@));
    }
    while remaining.len() > 0
        invariant
            out@ + filter_spec(remaining@, dict@) == filter_spec(orig, dict@),
            misspelling@ == "misspelling"@,
        decreases remaining@.len(),
    {
        let ghost before = remaining@;
        let m = remaining.remove(0);
        proof {
            assert(before.remove(0) =~= before.drop_first());
        }
        let keep = if !(m.rule.issue_type == misspelling) {
            true
        } else {
            let word = word_of_context(&m.context);
            !dict_lookup(dict, &word)
        };
        proof {
            assert(keep == keep_match(m, dict@));
        }
        if keep {
            out.push(m);
            proof {
                assert(out@ + filter_spec(remaining@, dict@) =~= filter_spec(orig, dict@));
            }
        }
    }
    proof {
        assert(filter_spec(remaining@, dict@) =~= Seq::<CheckMatch>::empty());
        assert(out@ =~= out@ + Seq::<CheckMatch>::empty());
    }
    out
}

// ---- per-chunk projection used by the whole-chunk check flow ----

/// Whether one match can be projected from a chunk starting at `start_pos`.
pub open spec fn plain_projectable(doc: Document, start_pos: int, m: CheckMatch) -> bool {
    &&& start_pos + m.offset + m.length <= doc.text@.len()
    &&& line_at(doc.text@, start_pos + m.offset) <= u32::MAX
    &&& column_at(doc.text@, start_pos + m.offset) <= u32::MAX
    &&& line_at(doc.text@, start_pos + m.offset + m.length) <= u32::MAX
    &&& column_at(doc.text@, start_pos + m.offset + m.length) <= u32::MAX
}

/// Project one match from a chunk starting at `start_pos`, or `None` when
/// the projection leaves the text or the protocol's coordinate space.
fn project_one(document: &Document, start_pos: usize, m: &CheckMatch) -> (r: Option<
    (Diagnostic, LspDiagnostic),
>)
    requires
        document.wf(),
    ensures
        match r {
            Some(pair) => plain_projectable(*document, start_pos as int, *m) && projected_ok(
                document.text@,
                document.latest_version,
                start_pos as int,
                *m,
                pair.0,
                pair.1,
            ),
            None => !plain_projectable(*document, start_pos as int, *m),
        },
{
    let n: usize = document.text.unicode_len();
    if !(m.offset <= usize::MAX - start_pos && m.length <= usize::MAX - start_pos - m.offset
        && start_pos + m.offset + m.length <= n) {
        return None;
    }
    let s_off = start_pos + m.offset;
    let e_off = s_off + m.length;
    let (l1, c1) = match document.range_to_line_character(s_off) {
        Some(c) => c,
        None => {
            proof {
                assert(false);
            }
            (0, 0)
        },
    };
    let (l2, c2) = match document.range_to_line_character(e_off) {
        Some(c) => c,
        None => {
            proof {
                assert(false);
            }
            (0, 0)
        },
    };
    if !(l1 <= u32::MAX as usize && c1 <= u32::MAX as usize && l2 <= u32::MAX as usize && c2
        <= u32::MAX as usize) {
        return None;
    }
    let lsp_range = LspRange {
        start: LspPosition { line: l1 as u32, character: c1 as u32 },
        end: LspPosition { line: l2 as u32, character: c2 as u32 },
    };
    let lsp_d = LspDiagnostic { range: lsp_range, message: m.message.clone() };
    let d = Diagnostic {
        range: TextRange { start: s_off, end: e_off },
        version: document.latest_version,
        diagnostics_lsp: lsp_d.clone(),
        source_data: DiagnosticSourceData::LanguageTool(
            LTDiagnostic {
                replacements: clone_replacements(&m.replacements),
                rule: clone_rule(&m.rule),
            },
        ),
        source: DiagnosticSource::LanguageTool,
    };
    Some((d, lsp_d))
}

/// The matches of a response that can be projected from `start_pos`, in
/// response order.
pub open spec fn projectable_matches(
    ms: Seq<CheckMatch>,
    doc: Document,
    start_pos: int,
) -> Seq<CheckMatch>
    decreases ms.len(),
{
    if ms.len() == 0 {
        Seq::empty()
    } else {
        let rest = projectable_matches(ms.drop_last(), doc, start_pos);
        if plain_projectable(doc, start_pos, ms.last()) {
            rest.push(ms.last())
        } else {
            rest
        }
    }
}

/// When every match projects, none is dropped.
pub proof fn lemma_all_projectable(ms: Seq<CheckMatch>, doc: Document, start_pos: int)
    requires
        forall|i: int| 0 <= i < ms.len() ==> plain_projectable(doc, start_pos, #[trigger] ms[i]),
    ensures
        projectable_matches(ms, doc, start_pos) == ms,
    decreases ms.len(),
{
    if ms.len() > 0 {
        assert(forall|i: int|
            0 <= i < ms.drop_last().len() ==> plain_projectable(
                doc,
                start_pos,
                #[trigger] ms.drop_last()[i],
            ));
        lemma_all_projectable(ms.drop_last(), doc, start_pos);
        assert(projectable_matches(ms, doc, start_pos) =~= ms);
    }
}

/// The document-relative diagnostics for one chunk's checker response: the
/// in-order projection of exactly the projectable matches, each match's
/// offsets shifted by the chunk's starting position. A match whose
/// projection leaves the text or the protocol's coordinate space is dropped
/// without failing the rest.
pub fn retrieve_diagnostics(document: &Document, start_pos: usize, matches: &Vec<CheckMatch>) -> (r:
    (Vec<Diagnostic>, Vec<LspDiagnostic>))
    requires
        document.wf(),
    ensures
        r.0@.len() == r.1@.len(),
        r.0@.len() == projectable_matches(matches@, *document, start_pos as int).len(),
        forall|k: int|
            0 <= k < r.0@.len() ==> projected_ok(
                document.text@,
                document.latest_version,
                start_pos as int,
                projectable_matches(matches@, *document, start_pos as int)[k],
                #[trigger] r.0@[k],
                r.1@[k],
            ),
{
    let mut out_diags: Vec<Diagnostic> = Vec::new();
    let mut out_lsp: Vec<LspDiagnostic> = Vec::new();
    let mut i: usize = 0;
    proof {
        assert(matches@.take(0) =~= Seq::<CheckMatch>::empty());
    }
    while i < matches.len()
        invariant
            document.wf(),
            out_diags@.len() == out_lsp@.len(),
            i <= matches@.len(),
            out_diags@.len() == projectable_matches(
                matches@.take(i as int),
                *document,
                start_pos as int,
            ).len(),
            forall|k: int|
                0 <= k < out_diags@.len() ==> projected_ok(
                    document.text@,
                    document.latest_version,
                    start_pos as int,
                    projectable_matches(matches@.take(i as int), *document, start_pos as int)[k],
                    #[trigger] out_diags@[k],
                    out_lsp@[k],
                ),
        decreases matches@.len() - i,
    {
        proof {
            assert(matches@.take(i + 1).drop_last() =~= matches@.take(i as int));
            assert(matches@.take(i + 1).last() == matches@[i as int]);
        }
        match project_one(document, start_pos, &matches[i]) {
            Some(pair) => {
                out_diags.push(pair.0);
                out_lsp.push(pair.1);
            },
            None => {
            },
        }
        i = i + 1;
    }
    proof {
        assert(matches@.take(matches@.len() as int) =~= matches@);
    }
    (out_diags, out_lsp)
}

// ---- code actions ----

/// Relies on uuid::Uuid::new_v4 and Uuid's Display form: a fresh random
/// identifier, rendered as the 36-character hyphenated form.
#[verifier::external_body]
fn fresh_action_id() -> (r: String)
    ensures
        r@.len() == 36,
{
    uuid::Uuid::new_v4().to_string()
}

/// The actions for one diagnostic: one replacement edit per suggestion the
/// checker made, titled with the rule and the replacement.
pub fn diagnostic_code_action(document: &Document, diagnostic: &Diagnostic, uri: &String) -> (r: Vec<
    CodeActionOrCommand,
>)
    requires
        document.wf(),
    ensures
        forall|k: int| 0 <= k < r@.len() ==> (#[trigger] r@[k]) is CodeAction,
        match diagnostic.source_data {
            DiagnosticSourceData::LanguageTool(_) => {
                &&& publishable(*diagnostic, *document) ==> {
                    let lt = diagnostic.source_data->LanguageTool_0;
                    &&& r@.len() == lt.replacements@.len()
                    &&& forall|k: int|
                        0 <= k < r@.len() ==> action_ok(
                            #[trigger] r@[k],
                            lt,
                            k,
                            published_range(*diagnostic, *document),
                            uri@,
                        )
                }
                &&& !publishable(*diagnostic, *document) ==> r@.len() == 0
            },
            _ => r@.len() == 0,
        },
{
    let lt_dia: (Vec<Replacement>, Rule) = match &diagnostic.source_data {
        DiagnosticSourceData::LanguageTool(c) => (
            clone_replacements(&c.replacements),
            clone_rule(&c.rule),
        ),
        _ => {
            return Vec::new();
        },
    };
    let lsp_diagnostic = match diagnostic.corrected_diagnostics_lsp(document) {
        Some(c) => c,
        None => {
            return Vec::new();
        },
    };
    let lsp_range = lsp_diagnostic.range;
    let mut out: Vec<CodeActionOrCommand> = Vec::new();
    let mut k: usize = 0;
    let ghost lt = diagnostic.source_data->LanguageTool_0;
    let ghost pr = published_range(*diagnostic, *document);
    while k < lt_dia.0.len()
        invariant
            out@.len() == k,
            k <= lt_dia.0@.len(),
            lt_dia.0@.len() == lt.replacements@.len(),
            forall|i: int|
                0 <= i < lt_dia.0@.len() ==> (#[trigger] lt_dia.0@[i]).value@
                    == lt.replacements@[i].value@,
            lt_dia.1.description@ == lt.rule.description@,
            lsp_range == pr,
            lsp_diagnostic.message@ == diagnostic.diagnostics_lsp.message@,
            forall|i: int| 0 <= i < k ==> action_ok(#[trigger] out@[i], lt, i, pr, uri@),
            forall|i: int| 0 <= i < k ==> (#[trigger] out@[i]) is CodeAction,
        decreases lt_dia.0@.len() - k,
    {
        let value = lt_dia.0[k].value.clone();
        let mut title = String::from_str("Rule: ");
        title.append(lt_dia.1.description.as_str());
        title.append(" | Replacement: ");
        title.append(value.as_str());
        proof {
            reveal_strlit("Rule: ");
            reveal_strlit(" | Replacement: ");
        }
        let mut edits: Vec<TextEdit> = Vec::new();
        edits.push(TextEdit { range: lsp_range, new_text: value });
        let mut action_diags: Vec<LspDiagnostic> = Vec::new();
        action_diags.push(lsp_diagnostic.clone());
        out.push(
            CodeActionOrCommand::CodeAction(
                CodeAction {
                    title,
                    diagnostics: action_diags,
                    edit: WorkspaceEdit { uri: uri.clone(), edits },
                },
            ),
        );
        k = k + 1;
    }
    out
}

/// What one replacement's code action looks like.
pub open spec fn action_ok(
    a: CodeActionOrCommand,
    lt: LTDiagnostic,
    k: int,
    range: LspRange,
    uri: Seq<char>,
) -> bool {
    match a {
        CodeActionOrCommand::CodeAction(ca) => {
            &&& ca.title@ == "Rule: "@ + lt.rule.description@ + " | Replacement: "@
                + lt.replacements@[k].value@
            &&& ca.edit.uri@ == uri
            &&& ca.edit.edits@.len() == 1
            &&& ca.edit.edits@[0].range == range
            &&& ca.edit.edits@[0].new_text@ == lt.replacements@[k].value@
        },
        _ => false,
    }
}

/// Whether a stored diagnostic is checker-sourced and its corrected range
/// covers the queried range.
pub open spec fn hovering(d: Diagnostic, doc: Document, range: TextRange) -> bool {
    match crate::diagnostics::corrected_range_of(d, doc) {
        Some(x) => d.source == DiagnosticSource::LanguageTool && x.end >= range.end && x.start
            <= range.start,
        None => false,
    }
}

/// The replacement actions one stored diagnostic contributes over `range`:
/// one per suggested replacement when it hovers and can be published,
/// nothing otherwise.
pub open spec fn slots_of(d: Diagnostic, doc: Document, range: TextRange) -> Seq<(Diagnostic, int)> {
    if hovering(d, doc, range) {
        match d.source_data {
            DiagnosticSourceData::LanguageTool(lt) => if publishable(d, doc) {
                Seq::new(lt.replacements@.len() as nat, |k: int| (d, k))
            } else {
                Seq::empty()
            },
            _ => Seq::empty(),
        }
    } else {
        Seq::empty()
    }
}

/// Every replacement action the store contributes over `range`, in store
/// order.
pub open spec fn action_slots(store: Seq<Diagnostic>, doc: Document, range: TextRange) -> Seq<
    (Diagnostic, int),
>
    decreases store.len(),
{
    if store.len() == 0 {
        Seq::empty()
    } else {
        action_slots(store.drop_last(), doc, range) + slots_of(store.last(), doc, range)
    }
}

/// The code actions offered over `range`: the two standing commands (run the
/// checker, clear its diagnostics) with fresh registered ids, followed, in
/// store order, by one replacement action per suggestion of every stored
/// checker diagnostic whose corrected range covers the range.
#[verifier::rlimit(60)]
pub fn code_actions(
    store: &Vec<Diagnostic>,
    document: &Document,
    uri: &String,
    range: &TextRange,
) -> (r: (Vec<CodeActionOrCommand>, Vec<(String, CodeActionSource)>))
    requires
        document.wf(),
    ensures
        r.1@.len() == 2,
        command_pair_ok(r.0@[0], r.1@[0], "Evaluate with language tools"@, uri@),
        command_pair_ok(r.0@[1], r.1@[1], "Remove language tools diagnostics"@, uri@),
        r.1@[0].1 is LanguageToolCheckText,
        r.1@[1].1 is LanguageToolRemoveDiagnostics,
        r.0@.len() == 2 + action_slots(store@, *document, *range).len(),
        forall|k: int|
            0 <= k < action_slots(store@, *document, *range).len() ==> action_ok(
                #[trigger] r.0@[2 + k],
                action_slots(store@, *document, *range)[k].0.source_data->LanguageTool_0,
                action_slots(store@, *document, *range)[k].1,
                published_range(action_slots(store@, *document, *range)[k].0, *document),
                uri@,
            ),
{
    let uuid1 = fresh_action_id();
    let uuid2 = fresh_action_id();
    let mut out_actions: Vec<CodeActionOrCommand> = Vec::new();
    out_actions.push(
        CodeActionOrCommand::Command(
            Command {
                title: String::from_str("Evaluate with language tools"),
                command: uuid1.clone(),
            },
        ),
    );
    out_actions.push(
        CodeActionOrCommand::Command(
            Command {
                title: String::from_str("Remove language tools diagnostics"),
                command: uuid2.clone(),
            },
        ),
    );
    let mut registry: Vec<(String, CodeActionSource)> = Vec::new();
    registry.push(
        (uuid1, CodeActionSource::LanguageToolCheckText(LTCodeActionCheckText { uri: uri.clone() })),
    );
    registry.push(
        (
            uuid2,
            CodeActionSource::LanguageToolRemoveDiagnostics(
                LTCodeActionRemoveDiagnostic { uri: uri.clone() },
            ),
        ),
    );
    let mut i: usize = 0;
    proof {
        assert(store@.take(0) =~= Seq::<Diagnostic>::empty());
    }
    while i < store.len()
        invariant
            document.wf(),
            registry@.len() == 2,
            command_pair_ok(out_actions@[0], registry@[0], "Evaluate with language tools"@, uri@),
            command_pair_ok(
                out_actions@[1],
                registry@[1],
                "Remove language tools diagnostics"@,
                uri@,
            ),
            registry@[0].1 is LanguageToolCheckText,
            registry@[1].1 is LanguageToolRemoveDiagnostics,
            i <= store@.len(),
            out_actions@.len() == 2 + action_slots(store@.take(i as int), *document, *range).len(),
            forall|k: int|
                0 <= k < action_slots(store@.take(i as int), *document, *range).len()
                    ==> action_ok(
                    #[trigger] out_actions@[2 + k],
                    action_slots(
                        store@.take(i as int),
                        *document,
                        *range,
                    )[k].0.source_data->LanguageTool_0,
                    action_slots(store@.take(i as int), *document, *range)[k].1,
                    published_range(
                        action_slots(store@.take(i as int), *document, *range)[k].0,
                        *document,
                    ),
                    uri@,
                ),
        decreases store@.len() - i,
    {
        proof {
            assert(store@.take(i + 1).drop_last() =~= store@.take(i as int));
            assert(store@.take(i + 1).last() == store@[i as int]);
        }
        let d = &store[i];
        let hovering_now = match document.correct_range(d.version, d.range) {
            Some(x_range) => matches!(d.source, DiagnosticSource::LanguageTool) && x_range.end
                >= range.end && x_range.start <= range.start,
            None => false,
        };
        let ghost before = out_actions@;
        let ghost prev_slots = action_slots(store@.take(i as int), *document, *range);
        if hovering_now {
            let mut more = diagnostic_code_action(document, d, uri);
            let ghost more_view = more@;
            out_actions.append(&mut more);
            proof {
                assert(hovering(store@[i as int], *document, *range));
                assert(out_actions@[0] == before[0]);
                assert(out_actions@[1] == before[1]);
                let new_slots = action_slots(store@.take(i + 1), *document, *range);
                assert(new_slots == prev_slots + slots_of(store@[i as int], *document, *range));
                assert(more_view.len() == slots_of(store@[i as int], *document, *range).len());
                assert forall|k: int| 0 <= k < new_slots.len() implies action_ok(
                    #[trigger] out_actions@[2 + k],
                    new_slots[k].0.source_data->LanguageTool_0,
                    new_slots[k].1,
                    published_range(new_slots[k].0, *document),
                    uri@,
                ) by {
                    if k < prev_slots.len() {
                        assert(out_actions@[2 + k] == before[2 + k]);
                        assert(new_slots[k] == prev_slots[k]);
                    } else {
                        assert(out_actions@[2 + k] == more_view[k - prev_slots.len()]);
                        assert(new_slots[k] == slots_of(store@[i as int], *document, *range)[
                            k - prev_slots.len()
                        ]);
                    }
                }
            }
        } else {
            proof {
                assert(!hovering(store@[i as int], *document, *range));
                assert(slots_of(store@[i as int], *document, *range) =~= Seq::<
                    (Diagnostic, int),
                >::empty());
                assert(action_slots(store@.take(i + 1), *document, *range) =~= prev_slots);
            }
        }
        i = i + 1;
    }
    proof {
        assert(store@.take(store@.len() as int) =~= store@);
    }
    (out_actions, registry)
}

/// What one standing command and its registry entry look like.
pub open spec fn command_pair_ok(
    a: CodeActionOrCommand,
    entry: (String, CodeActionSource),
    title: Seq<char>,
    uri: Seq<char>,
) -> bool {
    match a {
        CodeActionOrCommand::Command(c) => {
            &&& c.title@ == title
            &&& c.command@ == entry.0@
            &&& c.command@.len() == 36
            &&& match entry.1 {
                CodeActionSource::LanguageToolCheckText(t) => t.uri@ == uri,
                CodeActionSource::LanguageToolRemoveDiagnostics(t) => t.uri@ == uri,
            }
        },
        _ => false,
    }
}

} // verus!
