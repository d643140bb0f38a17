use vstd::prelude::*;
use crate::term::Opcode;
use crate::term::Term;
use crate::term::atoms;
use crate::term::cat;
use crate::term::chain;
use crate::term::chain_cost;

verus! {

/// One frame of the reducer, as a mathematical value.
pub struct Scope {
    /// The code that is still to run; the first term is fetched next.
    pub con: Seq<Term>,
    /// The values; the last one is on top.
    pub env: Seq<Term>,
    /// What got stuck, in the order of the program.
    pub err: Seq<Term>,
}

impl Scope {
    /// A fresh frame that is to run `root`.
    pub open spec fn new(root: Term) -> Scope {
        Scope { con: seq![root], env: Seq::empty(), err: Seq::empty() }
    }

    /// What the frame has left behind, in the order of the program: what got
    /// stuck, then the values.
    pub open spec fn residue(self) -> Seq<Term> {
        self.err + self.env
    }

    /// Whether something got stuck in the frame.
    pub open spec fn is_thunked(self) -> bool {
        self.err.len() > 0
    }

    /// The frame with `con` as its code.
    pub open spec fn with_con(self, con: Seq<Term>) -> Scope {
        Scope { con: con, env: self.env, err: self.err }
    }

    /// The frame with `env` as its values.
    pub open spec fn with_env(self, env: Seq<Term>) -> Scope {
        Scope { con: self.con, env: env, err: self.err }
    }

    /// The frame after `code` got stuck: the values move behind what got
    /// stuck before, and `code` follows them.
    pub open spec fn thunk(self, code: Term) -> Scope {
        Scope { con: self.con, env: Seq::empty(), err: (self.err + self.env).push(code) }
    }

    /// The value on top.
    pub open spec fn top(self) -> Term {
        self.env[self.env.len() - 1]
    }

    /// The value below the top.
    pub open spec fn second(self) -> Term {
        self.env[self.env.len() - 2]
    }

    /// The values without the `n` on top.
    pub open spec fn below(self, n: int) -> Seq<Term> {
        self.env.subrange(0, self.env.len() - n)
    }
}

/// The reducer, as a mathematical value: the active frame and the frames
/// below it, the innermost last.
pub struct Machine {
    pub frame: Scope,
    pub stack: Seq<Scope>,
}

/// A machine together with the number of nodes that it took to get there.
pub struct Stepped {
    pub machine: Machine,
    pub cost: nat,
}

/// What a fetch finds: the term to act on, if any is left, the machine
/// after it, and the nodes that were allocated on the way.
pub struct Fetched {
    pub code: Option<Term>,
    pub machine: Machine,
    pub cost: nat,
}

/// The bindings of the dictionary.
pub type Bindings = Map<Seq<char>, Term>;

impl Machine {
    /// A machine that is to run `root`.
    pub open spec fn new(root: Term) -> Machine {
        Machine { frame: Scope::new(root), stack: Seq::empty() }
    }

    /// Whether anything is left to run, or a frame left to close.
    pub open spec fn has_continuation(self) -> bool {
        self.frame.con.len() > 0 || self.stack.len() > 0
    }

    /// The machine with `frame` as its active frame.
    pub open spec fn with_frame(self, frame: Scope) -> Machine {
        Machine { frame: frame, stack: self.stack }
    }

    /// The machine after the active frame, which has run out of code, was
    /// closed.  If something got stuck in it, its residue gets stuck in the
    /// frame below as one scope; else its values join those of the frame
    /// below.
    pub open spec fn leave(self) -> Machine {
        let parent = self.stack.last();
        Machine {
            frame: if self.frame.is_thunked() {
                parent.thunk(Term::arrow(chain(self.frame.residue())))
            } else {
                parent.with_env(parent.env + self.frame.env)
            },
            stack: self.stack.drop_last(),
        }
    }

    /// The nodes that closing the active frame allocates.
    pub open spec fn leave_cost(self) -> nat {
        if self.frame.is_thunked() {
            chain_cost(self.frame.residue()) + 1
        } else {
            0
        }
    }

    /// The first term of the code, or the empty program where there is
    /// none.
    pub open spec fn front(self) -> Term {
        if self.frame.con.len() > 0 {
            self.frame.con[0]
        } else {
            Term::Id
        }
    }

    /// Fetches the next term: frames that have run out of code are closed,
    /// and a sequence at the front of the code gives way to its two parts.
    pub open spec fn fetch(self) -> Fetched
        decreases self.stack.len(), self.front(),
    {
        if self.frame.con.len() == 0 {
            if self.stack.len() == 0 {
                Fetched { code: None, machine: self, cost: 0 }
            } else {
                let next = self.leave().fetch();
                Fetched { code: next.code, machine: next.machine, cost: next.cost + self.leave_cost() }
            }
        } else {
            let code = self.frame.con[0];
            let rest = self.frame.con.drop_first();
            match code {
                Term::Sequence(fst, snd) => self.with_frame(
                    self.frame.with_con(seq![*fst, *snd] + rest),
                ).fetch(),
                _ => Fetched {
                    code: Some(code),
                    machine: self.with_frame(self.frame.with_con(rest)),
                    cost: 0,
                },
            }
        }
    }

    /// The machine after one step: the next term is fetched and acted on.
    pub open spec fn step(self, bindings: Bindings) -> Stepped {
        let fetched = self.fetch();
        match fetched.code {
            None => Stepped { machine: fetched.machine, cost: fetched.cost },
            Some(code) => {
                let acted = fetched.machine.act(code, bindings);
                Stepped { machine: acted.machine, cost: fetched.cost + acted.cost }
            },
        }
    }

    /// The machine after acting on a fetched term.  The empty program and a
    /// hint have no effect; a number and a block are values; a scope opens a
    /// frame; a word gives way to what it is bound to, or gets stuck; a
    /// combinator is executed.
    pub open spec fn act(self, code: Term, bindings: Bindings) -> Stepped {
        match code {
            Term::Id => Stepped { machine: self, cost: 0 },
            Term::Hint(_) => Stepped { machine: self, cost: 0 },
            Term::Sequence(_, _) => Stepped { machine: self, cost: 0 },
            Term::Number(_, _) => Stepped {
                machine: self.with_frame(self.frame.with_env(self.frame.env.push(code))),
                cost: 0,
            },
            Term::Block(_) => Stepped {
                machine: self.with_frame(self.frame.with_env(self.frame.env.push(code))),
                cost: 0,
            },
            Term::Arrow(body) => Stepped {
                machine: Machine { frame: Scope::new(*body), stack: self.stack.push(self.frame) },
                cost: 0,
            },
            Term::Word(name) => Stepped {
                machine: if bindings.contains_key(name) {
                    self.with_frame(self.frame.with_con(seq![bindings[name]] + self.frame.con))
                } else {
                    self.with_frame(self.frame.thunk(code))
                },
                cost: 0,
            },
            Term::Opcode(opcode) => {
                let done = execute(self.frame, self.stack.len() > 0, opcode, code);
                Stepped { machine: self.with_frame(done.0), cost: done.1 }
            },
        }
    }

    /// The machine after at most `quota` steps: it stops when nothing is
    /// left to run.
    pub open spec fn run(self, bindings: Bindings, quota: nat) -> Machine
        decreases quota,
    {
        if quota == 0 || !self.has_continuation() {
            self
        } else {
            self.step(bindings).machine.run(bindings, (quota - 1) as nat)
        }
    }

    /// The nodes that the run allocates.
    pub open spec fn run_cost(self, bindings: Bindings, quota: nat) -> nat
        decreases quota,
    {
        if quota == 0 || !self.has_continuation() {
            0
        } else {
            self.step(bindings).cost + self.step(bindings).machine.run_cost(
                bindings,
                (quota - 1) as nat,
            )
        }
    }

    /// The term that stands for the machine: the residue of the active
    /// frame, followed by the code that it has left, if any.
    pub open spec fn result(self) -> Term {
        if self.has_continuation() {
            cat(chain(self.frame.residue()), chain(self.frame.con))
        } else {
            chain(self.frame.residue())
        }
    }

    /// The nodes that building the result allocates.
    pub open spec fn result_cost(self) -> nat {
        if self.has_continuation() {
            chain_cost(self.frame.con) + chain_cost(self.frame.residue()) + atoms(
                chain(self.frame.residue()),
            )
        } else {
            chain_cost(self.frame.residue())
        }
    }
}

/// Whether the combinator finds what it needs among the values of the
/// frame.  `nested` says whether a frame lies below.
pub open spec fn ready(frame: Scope, nested: bool, opcode: Opcode) -> bool {
    match opcode {
        Opcode::App => frame.env.len() >= 1 && frame.top() is Block,
        Opcode::Box => frame.env.len() >= 1,
        Opcode::Cat => frame.env.len() >= 2 && frame.top() is Block && frame.second() is Block,
        Opcode::Copy => frame.env.len() >= 1,
        Opcode::Drop => frame.env.len() >= 1,
        Opcode::Swap => frame.env.len() >= 2,
        Opcode::Fix => frame.env.len() >= 1 && frame.top() is Block,
        Opcode::Run => frame.env.len() >= 1 && frame.top() is Block,
        Opcode::Shift => frame.env.len() >= 1 && frame.top() is Block && nested,
    }
}

/// The frame after the combinator `opcode`, fetched as the term `code`,
/// was executed, and the nodes that this allocates.  A combinator that does
/// not find what it needs gets stuck.
pub open spec fn execute(frame: Scope, nested: bool, opcode: Opcode, code: Term) -> (Scope, nat) {
    if !ready(frame, nested, opcode) {
        (frame.thunk(code), 0)
    } else {
        match opcode {
            Opcode::App => (
                Scope {
                    con: seq![*frame.top()->Block_0] + frame.con,
                    env: frame.below(1),
                    err: frame.err,
                },
                0,
            ),
            Opcode::Box => (frame.with_env(frame.below(1).push(Term::block(frame.top()))), 1),
            Opcode::Cat => (
                frame.with_env(
                    frame.below(2).push(
                        Term::block(cat(*frame.second()->Block_0, *frame.top()->Block_0)),
                    ),
                ),
                atoms(*frame.second()->Block_0) + 1,
            ),
            Opcode::Copy => (frame.with_env(frame.env.push(frame.top())), 0),
            Opcode::Drop => (frame.with_env(frame.below(1)), 0),
            Opcode::Swap => (
                frame.with_env(frame.below(2).push(frame.top()).push(frame.second())),
                0,
            ),
            Opcode::Fix => (
                frame.with_env(
                    frame.below(1).push(
                        Term::block(cat(cat(frame.top(), code), *frame.top()->Block_0)),
                    ),
                ),
                4,
            ),
            Opcode::Run => (
                Scope {
                    con: seq![Term::Arrow(frame.top()->Block_0)] + frame.con,
                    env: frame.below(1),
                    err: frame.err,
                },
                1,
            ),
            Opcode::Shift => {
                let rest = Scope { con: frame.con, env: frame.below(1), err: frame.err };
                (
                    Scope {
                        con: seq![*frame.top()->Block_0],
                        env: seq![
                            Term::block(chain(rest.residue())),
                            Term::block(chain(rest.con)),
                        ],
                        err: Seq::empty(),
                    },
                    chain_cost(rest.residue()) + chain_cost(rest.con) + 2,
                )
            },
        }
    }
}

} // verus!
