use vstd::prelude::*;

verus! {

/// A whole program: the statements in source order.
pub type AST = Vec<Statement>;

/// One statement of the language, as the statement-level parser builds it.
pub enum Statement {
    Include(Path),
    Label(Name),
    Instruction(Opcode, Operand),
}

pub type Path = String;

/// A scalar literal that appears in source.
#[derive(PartialEq, Debug, Clone)]
pub enum Atom {
    Int(i64),
    Str(String),
    Name(Name),
}

pub type Name = String;

pub type Opcode = String;

pub type Operand = Vec<Atom>;

/// What an `Atom` holds, with its strings as character sequences.
pub enum AtomView {
    Int(i64),
    Str(Seq<char>),
    Name(Seq<char>),
}

impl View for Atom {
    type V = AtomView;

    open spec fn view(&self) -> AtomView {
        match self {
            Atom::Int(i) => AtomView::Int(*i),
            Atom::Str(s) => AtomView::Str(s@),
            Atom::Name(n) => AtomView::Name(n@),
        }
    }
}

} // verus!
