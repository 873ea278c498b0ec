use vstd::prelude::*;

verus! {

/// A protocol-facing position: zero-based line and character column.
#[derive(Clone, Copy, PartialEq, Eq, Structural, Debug)]
pub struct LspPosition {
    pub line: u32,
    pub character: u32,
}

/// A protocol-facing range between two positions.
#[derive(Clone, Copy, PartialEq, Eq, Structural, Debug)]
pub struct LspRange {
    pub start: LspPosition,
    pub end: LspPosition,
}

/// A published diagnostic: a protocol range and a human-readable message.
#[derive(Debug, PartialEq)]
pub struct LspDiagnostic {
    pub range: LspRange,
    pub message: String,
}

impl LspDiagnostic {
    pub fn clone(&self) -> (r: Self)
        ensures
            r.range == self.range,
            r.message@ == self.message@,
    {
        LspDiagnostic { range: self.range, message: self.message.clone() }
    }
}

/// A single text replacement in a document.
#[derive(Debug, PartialEq)]
pub struct TextEdit {
    pub range: LspRange,
    pub new_text: String,
}

/// The edits a code action applies to one document.
#[derive(Debug, PartialEq)]
pub struct WorkspaceEdit {
    pub uri: String,
    pub edits: Vec<TextEdit>,
}

/// An executable command offered to the editor.
#[derive(Debug, PartialEq)]
pub struct Command {
    pub title: String,
    pub command: String,
}

/// A code action: a title, the diagnostics it addresses, and the edit that
/// resolves them.
#[derive(Debug, PartialEq)]
pub struct CodeAction {
    pub title: String,
    pub diagnostics: Vec<LspDiagnostic>,
    pub edit: WorkspaceEdit,
}

/// What the server offers the editor at a cursor position.
#[derive(Debug, PartialEq)]
pub enum CodeActionOrCommand {
    Command(Command),
    CodeAction(CodeAction),
}

} // verus!
