use vstd::prelude::*;
use crate::text::{contains_char, ends_with, has_suffix};

verus! {

/// The language of a module, decided by its file extension.
#[derive(Clone, Copy, Debug, PartialEq, Eq, Structural)]
pub enum MediaKind {
    /// `.js`, `.mjs`, `.cjs`, or no extension: runs as it is.
    JavaScript,
    /// `.ts`, `.mts`, `.cts`: transpiled before it runs.
    TypeScript,
    /// `.tsx`: TypeScript with JSX, transpiled before it runs.
    Tsx,
    /// `.json`: wrapped as a module whose default export is the value.
    Json,
}

/// The language of a module whose file name is `name`; `None` for an
/// extension outside the table.
pub open spec fn media_of(name: Seq<char>) -> Option<MediaKind> {
    if has_suffix(name, ".ts"@) || has_suffix(name, ".mts"@) || has_suffix(name, ".cts"@) {
        Some(MediaKind::TypeScript)
    } else if has_suffix(name, ".tsx"@) {
        Some(MediaKind::Tsx)
    } else if has_suffix(name, ".js"@) || has_suffix(name, ".mjs"@) || has_suffix(name, ".cjs"@) {
        Some(MediaKind::JavaScript)
    } else if has_suffix(name, ".json"@) {
        Some(MediaKind::Json)
    } else if !name.contains('.') {
        Some(MediaKind::JavaScript)
    } else {
        None
    }
}

/// Whether modules of `kind` go through the transpiler.
pub open spec fn needs_transpile(kind: MediaKind) -> bool {
    kind == MediaKind::TypeScript || kind == MediaKind::Tsx
}

impl MediaKind {
    /// Classifies a module by its file name.
    pub fn classify(name: &str) -> (r: Option<MediaKind>)
        ensures
            r == media_of(name@),
    {
        if ends_with(name, ".ts") || ends_with(name, ".mts") || ends_with(name, ".cts") {
            Some(MediaKind::TypeScript)
        } else if ends_with(name, ".tsx") {
            Some(MediaKind::Tsx)
        } else if ends_with(name, ".js") || ends_with(name, ".mjs") || ends_with(name, ".cjs") {
            Some(MediaKind::JavaScript)
        } else if ends_with(name, ".json") {
            Some(MediaKind::Json)
        } else if !contains_char(name, '.') {
            Some(MediaKind::JavaScript)
        } else {
            None
        }
    }

    /// Whether modules of this kind go through the transpiler.
    pub fn needs_transpile(&self) -> (r: bool)
        ensures
            r == needs_transpile(*self),
    {
        match self {
            MediaKind::TypeScript | MediaKind::Tsx => true,
            _ => false,
        }
    }
}

} // verus!
