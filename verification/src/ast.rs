//! Structure of a parsed mangled name.
//!
//! A legacy name is a flat sequence of path components.  A versioned name is
//! a recursive path: a crate root, a nested component (with a namespace tag
//! that marks closures), or a generic application whose arguments are paths
//! or numeric const arguments.  Back-references are resolved during parsing,
//! so the structure itself contains none.

use vstd::prelude::*;

verus! {

/// Mathematical model of an identifier: its disambiguator ordinal and its
/// bytes.
pub struct SpecIdent {
    pub dis: nat,
    pub name: Seq<u8>,
}

/// Mathematical model of a versioned path.
pub enum SpecPath {
    Root { name: SpecIdent },
    Nested { ns: u8, parent: Box<SpecPath>, name: SpecIdent },
    Generic { base: Box<SpecPath>, args: Seq<SpecArg> },
}

/// Mathematical model of a generic argument.
pub enum SpecArg {
    Path(SpecPath),
    Num(nat),
}

/// Mathematical model of a whole parsed name.
pub enum SpecSymbol {
    Legacy { elems: Seq<Seq<u8>> },
    Versioned { path: SpecPath },
}

/// An identifier with its disambiguator ordinal.
pub struct Ident {
    pub dis: usize,
    pub name: Vec<u8>,
}

/// A versioned path.
pub enum Path {
    Root { name: Ident },
    Nested { ns: u8, parent: Box<Path>, name: Ident },
    Generic { base: Box<Path>, args: ArgList },
}

/// A generic argument: a path or a numeric const argument.
pub enum Arg {
    Path(Box<Path>),
    Num(usize),
}

/// The argument list of a generic application.
pub enum ArgList {
    Nil,
    Cons { head: Arg, tail: Box<ArgList> },
}

/// A whole parsed name.
pub enum Symbol {
    Legacy { elems: Vec<Vec<u8>> },
    Versioned { path: Path },
}

impl View for Ident {
    type V = SpecIdent;

    open spec fn view(&self) -> SpecIdent {
        SpecIdent { dis: self.dis as nat, name: self.name@ }
    }
}

impl View for Path {
    type V = SpecPath;

    open spec fn view(&self) -> SpecPath
        decreases self,
    {
        match self {
            Path::Root { name } => SpecPath::Root { name: name@ },
            Path::Nested { ns, parent, name } => SpecPath::Nested {
                ns: *ns,
                parent: Box::new((**parent)@),
                name: name@,
            },
            Path::Generic { base, args } => SpecPath::Generic {
                base: Box::new((**base)@),
                args: args@,
            },
        }
    }
}

impl View for ArgList {
    type V = Seq<SpecArg>;

    open spec fn view(&self) -> Seq<SpecArg>
        decreases self,
    {
        match self {
            ArgList::Nil => Seq::empty(),
            ArgList::Cons { head, tail } => seq![head@] + (**tail)@,
        }
    }
}

impl View for Arg {
    type V = SpecArg;

    open spec fn view(&self) -> SpecArg
        decreases self,
    {
        match self {
            Arg::Path(p) => SpecArg::Path((**p)@),
            Arg::Num(n) => SpecArg::Num(*n as nat),
        }
    }
}

impl View for Symbol {
    type V = SpecSymbol;

    open spec fn view(&self) -> SpecSymbol {
        match self {
            Symbol::Legacy { elems } => SpecSymbol::Legacy { elems: elems.deep_view() },
            Symbol::Versioned { path } => SpecSymbol::Versioned { path: path@ },
        }
    }
}

} // verus!
