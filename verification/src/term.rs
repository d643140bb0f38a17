use vstd::prelude::*;

verus! {

/// A primitive combinator.
#[derive(Debug, Copy, Clone, PartialEq, Eq, Hash, Structural)]
pub enum Opcode {
    /// Runs the block on top of the stack.
    App,
    /// Wraps the value on top of the stack in a block.
    Box,
    /// Joins the two blocks on top of the stack.
    Cat,
    /// Duplicates the value on top of the stack.
    Copy,
    /// Discards the value on top of the stack.
    Drop,
    /// Exchanges the two values on top of the stack.
    Swap,
    /// Ties the block on top of the stack to itself.
    Fix,
    /// Runs the block on top of the stack in a scope of its own.
    Run,
    /// Captures the rest of the enclosing scope and hands it to a handler.
    Shift,
}

/// A term of the language, as a mathematical value.
pub enum Term {
    /// The empty program.
    Id,
    /// A number: its IEEE-754 bit pattern and its decimal text.
    Number(u64, Seq<char>),
    /// A name.
    Word(Seq<char>),
    /// An annotation, written `(name)`.
    Hint(Seq<char>),
    /// A primitive combinator.
    Opcode(Opcode),
    /// A quoted program, written `[body]`.
    Block(Box<Term>),
    /// A scoped program, written `{ body }`.
    Arrow(Box<Term>),
    /// One program followed by another.
    Sequence(Box<Term>, Box<Term>),
}

impl Term {
    /// A block around `body`.
    pub open spec fn block(body: Term) -> Term {
        Term::Block(Box::new(body))
    }

    /// A scope around `body`.
    pub open spec fn arrow(body: Term) -> Term {
        Term::Arrow(Box::new(body))
    }

    /// `fst` followed by `snd`, as one node.
    pub open spec fn pair(fst: Term, snd: Term) -> Term {
        Term::Sequence(Box::new(fst), Box::new(snd))
    }
}

/// The number of terms on the spine of `a` that are neither empty nor a
/// sequence: the nodes that joining `a` to another term creates.
pub open spec fn atoms(a: Term) -> nat
    decreases a,
{
    match a {
        Term::Id => 0,
        Term::Sequence(x, y) => atoms(*x) + atoms(*y),
        _ => 1,
    }
}

/// `a` followed by `b` in normal form: the empty program vanishes from the
/// left, and a sequence on the left is re-associated to the right.
pub open spec fn cat(a: Term, b: Term) -> Term
    decreases a,
{
    match a {
        Term::Id => b,
        Term::Sequence(x, y) => cat(*x, cat(*y, b)),
        _ => Term::pair(a, b),
    }
}

/// The items in order as one chain, closed by the empty program.
pub open spec fn chain(items: Seq<Term>) -> Term
    decreases items.len(),
{
    if items.len() == 0 {
        Term::Id
    } else {
        cat(items[0], chain(items.drop_first()))
    }
}

/// What building `chain(items)` node by node allocates: the closing empty
/// program and the atoms of each item.
pub open spec fn chain_cost(items: Seq<Term>) -> nat
    decreases items.len(),
{
    if items.len() == 0 {
        1
    } else {
        atoms(items[0]) + chain_cost(items.drop_first())
    }
}

} // verus!
