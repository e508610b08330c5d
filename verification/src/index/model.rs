//! The symbol model: definitions, references and their source locations.
use vstd::prelude::*;

verus! {

/// What kind of item a definition is.
#[derive(Debug, Clone, Copy, PartialEq, Eq, Structural)]
pub enum SymbolKind {
    Fn,
    Method,
    Struct,
    Enum,
    Trait,
    Impl,
    Mod,
    Const,
    Macro,
    Other,
}

/// The name of a kind as `Debug` prints it.
pub open spec fn spec_kind_name(k: SymbolKind) -> Seq<char> {
    match k {
        SymbolKind::Fn => "Fn"@,
        SymbolKind::Method => "Method"@,
        SymbolKind::Struct => "Struct"@,
        SymbolKind::Enum => "Enum"@,
        SymbolKind::Trait => "Trait"@,
        SymbolKind::Impl => "Impl"@,
        SymbolKind::Mod => "Mod"@,
        SymbolKind::Const => "Const"@,
        SymbolKind::Macro => "Macro"@,
        SymbolKind::Other => "Other"@,
    }
}

impl SymbolKind {
    /// The kind's name, as `Debug` prints it (`"Fn"`, `"Struct"`, ...).
    pub fn name(&self) -> (s: String)
        ensures
            s@ == spec_kind_name(*self),
    {
        let lit = match self {
            SymbolKind::Fn => "Fn",
            SymbolKind::Method => "Method",
            SymbolKind::Struct => "Struct",
            SymbolKind::Enum => "Enum",
            SymbolKind::Trait => "Trait",
            SymbolKind::Impl => "Impl",
            SymbolKind::Mod => "Mod",
            SymbolKind::Const => "Const",
            SymbolKind::Macro => "Macro",
            SymbolKind::Other => "Other",
        };
        lit.to_owned()
    }

    /// Whether `self` and `other` are the same kind.
    pub fn same(&self, other: &SymbolKind) -> (r: bool)
        ensures
            r == (*self == *other),
    {
        *self == *other
    }
}

/// Source location (1-based line and column).
#[derive(Debug)]
pub struct Location {
    pub file: String,
    /// 1-based line number.
    pub line: usize,
    /// 1-based column number.
    pub col: usize,
}

impl Clone for Location {
    fn clone(&self) -> (r: Location)
        ensures
            r == *self,
    {
        Location { file: self.file.clone(), line: self.line, col: self.col }
    }
}

#[derive(Debug)]
pub struct SymbolDef {
    pub name: String,
    pub kind: SymbolKind,
    pub location: Location,
    /// Inclusive (start, end) line range of the symbol body (1-based).
    pub line_range: (usize, usize),
    pub is_pub: bool,
    pub docs: Option<String>,
}

impl Clone for SymbolDef {
    fn clone(&self) -> (r: SymbolDef)
        ensures
            r == *self,
    {
        let docs = match &self.docs {
            Some(d) => Some(d.clone()),
            None => None,
        };
        SymbolDef {
            name: self.name.clone(),
            kind: self.kind,
            location: self.location.clone(),
            line_range: self.line_range,
            is_pub: self.is_pub,
            docs,
        }
    }
}

#[derive(Debug)]
pub struct SymbolRef {
    pub name: String,
    pub location: Location,
}

impl Clone for SymbolRef {
    fn clone(&self) -> (r: SymbolRef)
        ensures
            r == *self,
    {
        SymbolRef { name: self.name.clone(), location: self.location.clone() }
    }
}

/// A definition's fields as plain values.
pub open spec fn def_view(d: SymbolDef) -> (
    Seq<char>,
    SymbolKind,
    Seq<char>,
    usize,
    usize,
    (usize, usize),
    bool,
    Option<Seq<char>>,
) {
    let docs = match d.docs {
        Some(s) => Some(s@),
        None => None,
    };
    (d.name@, d.kind, d.location.file@, d.location.line, d.location.col, d.line_range, d.is_pub, docs)
}

/// A reference's fields as plain values.
pub open spec fn ref_view(r: SymbolRef) -> (Seq<char>, Seq<char>, usize, usize) {
    (r.name@, r.location.file@, r.location.line, r.location.col)
}

} // verus!
