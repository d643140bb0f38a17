use vstd::prelude::*;
use crate::machine::Bindings;
use crate::machine::Machine;
use crate::machine::Scope;
use crate::machine::execute;
use crate::machine::ready;
use crate::syntax::text_of;
use crate::term::Opcode;
use crate::term::Term;
use crate::term::cat;
use crate::term::chain;

verus! {

/// The program that consists of one term.
pub open spec fn one(x: Term) -> Term {
    Term::pair(x, Term::Id)
}

/// The program that consists of two terms.
pub open spec fn two(x: Term, y: Term) -> Term {
    Term::pair(x, one(y))
}

/// The program that consists of three terms.
pub open spec fn three(x: Term, y: Term, z: Term) -> Term {
    Term::pair(x, two(y, z))
}

/// The combinator as a term.
pub open spec fn op(opcode: Opcode) -> Term {
    Term::Opcode(opcode)
}

/// A machine with one frame.
pub open spec fn flat(con: Seq<Term>, env: Seq<Term>, err: Seq<Term>) -> Machine {
    Machine { frame: Scope { con: con, env: env, err: err }, stack: Seq::empty() }
}

/// A fetch from code that begins with a sequence whose head is no
/// sequence takes the head and leaves the tail.
pub proof fn lemma_fetch_pair(m: Machine, head: Term, tail: Term)
    requires
        m.frame.con.len() > 0,
        m.frame.con[0] == Term::pair(head, tail),
        !(head is Sequence),
    ensures
        m.fetch().code == Some(head),
        m.fetch().machine.stack == m.stack,
        m.fetch().machine.frame.env == m.frame.env,
        m.fetch().machine.frame.err == m.frame.err,
        m.fetch().machine.frame.con == seq![tail] + m.frame.con.drop_first(),
        m.fetch().cost == 0,
{
    let rest = m.frame.con.drop_first();
    let next = m.with_frame(m.frame.with_con(seq![head, tail] + rest));
    assert(m.fetch() == next.fetch());
    assert(next.frame.con[0] == head);
    assert(next.frame.con.drop_first() =~= seq![tail] + rest);
}

/// A fetch from code that begins with a term that is no sequence takes
/// that term.
pub proof fn lemma_fetch_plain(m: Machine)
    requires
        m.frame.con.len() > 0,
        !(m.frame.con[0] is Sequence),
    ensures
        m.fetch().code == Some(m.frame.con[0]),
        m.fetch().machine.stack == m.stack,
        m.fetch().machine.frame.env == m.frame.env,
        m.fetch().machine.frame.err == m.frame.err,
        m.fetch().machine.frame.con == m.frame.con.drop_first(),
        m.fetch().cost == 0,
{
}

/// A run of a machine that has nothing left to run changes nothing, and so
/// does a run of no steps.
pub proof fn lemma_run_done(m: Machine, b: Bindings, q: nat)
    requires
        q == 0 || !m.has_continuation(),
    ensures
        m.run(b, q) == m,
{
}

/// A run of a machine that has something left to run begins with a step.
pub proof fn lemma_run_step(m: Machine, b: Bindings, q: nat)
    requires
        q > 0,
        m.has_continuation(),
    ensures
        m.run(b, q) == m.step(b).machine.run(b, (q - 1) as nat),
{
}

/// Running on is running from where the first run ended: a run of `k + n`
/// steps is a run of `k` steps followed by a run of `n` steps.
pub proof fn law_runs_compose(m: Machine, b: Bindings, k: nat, n: nat)
    ensures
        m.run(b, k + n) == m.run(b, k).run(b, n),
    decreases k,
{
    if k == 0 {
    } else if !m.has_continuation() {
        lemma_run_done(m, b, n);
    } else {
        law_runs_compose(m.step(b).machine, b, (k - 1) as nat, n);
        assert((k + n - 1) as nat == (k - 1) as nat + n);
    }
}

/// With a quota of zero the result is the term itself in normal form.
pub proof fn law_quota_zero(t: Term, b: Bindings)
    ensures
        Machine::new(t).run(b, 0).result() == cat(t, Term::Id),
{
    let m = Machine::new(t);
    assert(m.frame.residue() =~= Seq::<Term>::empty());
    assert(m.frame.con.drop_first() =~= Seq::<Term>::empty());
    assert(chain(m.frame.con) == cat(t, chain(m.frame.con.drop_first())));
    assert(chain(Seq::<Term>::empty()) == Term::Id);
}

/// The machine after a value at the head of the code was taken.
pub proof fn lemma_step_value(m: Machine, b: Bindings, v: Term, tail: Term)
    requires
        m.frame.con.len() > 0,
        m.frame.con[0] == Term::pair(v, tail),
        v is Block || v is Number,
    ensures
        m.step(b).machine.stack == m.stack,
        m.step(b).machine.frame.con == seq![tail] + m.frame.con.drop_first(),
        m.step(b).machine.frame.env == m.frame.env.push(v),
        m.step(b).machine.frame.err == m.frame.err,
{
    lemma_fetch_pair(m, v, tail);
}

/// The machine after a combinator at the head of the code was executed.
pub proof fn lemma_step_opcode(m: Machine, b: Bindings, opcode: Opcode, tail: Term)
    requires
        m.frame.con.len() > 0,
        m.frame.con[0] == Term::pair(op(opcode), tail),
    ensures
        m.step(b).machine.stack == m.stack,
        m.step(b).machine.frame == execute(
            Scope {
                con: seq![tail] + m.frame.con.drop_first(),
                env: m.frame.env,
                err: m.frame.err,
            },
            m.stack.len() > 0,
            opcode,
            op(opcode),
        ).0,
{
    lemma_fetch_pair(m, op(opcode), tail);
    let f = m.fetch().machine.frame;
    assert(f == Scope {
        con: seq![tail] + m.frame.con.drop_first(),
        env: m.frame.env,
        err: m.frame.err,
    });
}

/// The machine after the empty program at the head of the code was
/// passed over.
pub proof fn lemma_step_id(m: Machine, b: Bindings)
    requires
        m.frame.con.len() > 0,
        m.frame.con[0] == Term::Id,
    ensures
        m.step(b).machine.stack == m.stack,
        m.step(b).machine.frame.con == m.frame.con.drop_first(),
        m.step(b).machine.frame.env == m.frame.env,
        m.step(b).machine.frame.err == m.frame.err,
{
    lemma_fetch_plain(m);
}

/// A machine with one frame that has only the empty program left to run
/// ends after one more step, with its values and what got stuck as they
/// are.
pub proof fn lemma_finish(m: Machine, b: Bindings, q: nat)
    requires
        q >= 1,
        m.stack.len() == 0,
        m.frame.con =~= seq![Term::Id],
    ensures
        !m.run(b, q).has_continuation(),
        m.run(b, q).frame.env == m.frame.env,
        m.run(b, q).frame.err == m.frame.err,
        m.run(b, q).result() == chain(m.frame.err + m.frame.env),
{
    lemma_step_id(m, b);
    lemma_run_step(m, b, q);
    let n = m.step(b).machine;
    assert(n.frame.con =~= Seq::<Term>::empty());
    lemma_run_done(n, b, (q - 1) as nat);
}

/// `[A] app` runs `A`: two steps after the start the reducer has no
/// values and is about to run the body of the block.
pub proof fn law_app(a: Term, b: Bindings, q: nat)
    ensures
        Machine::new(two(Term::block(a), op(Opcode::App))).run(b, q + 2) == flat(
            seq![a, Term::Id],
            Seq::empty(),
            Seq::empty(),
        ).run(b, q),
{
    let m0 = Machine::new(two(Term::block(a), op(Opcode::App)));
    lemma_step_value(m0, b, Term::block(a), one(op(Opcode::App)));
    lemma_run_step(m0, b, q + 2);
    let m1 = m0.step(b).machine;
    assert(m1.frame.con =~= seq![one(op(Opcode::App))]);
    assert(m1.frame.env =~= seq![Term::block(a)]);
    lemma_step_opcode(m1, b, Opcode::App, Term::Id);
    lemma_run_step(m1, b, (q + 1) as nat);
    let m2 = m1.step(b).machine;
    assert(m1.frame.top() == Term::block(a));
    assert(m2.frame.con =~= seq![a, Term::Id]);
    assert(m2.frame.env =~= Seq::<Term>::empty());
    assert(m2.frame.err =~= Seq::<Term>::empty());
    assert(m2.stack =~= Seq::<Scope>::empty());
    assert(m2 == flat(seq![a, Term::Id], Seq::empty(), Seq::empty()));
}

/// The machine after a program of one block and one combinator has
/// pushed the block and fetched the combinator.
proof fn lemma_unary(a: Term, opcode: Opcode, b: Bindings, q: nat) -> (m: Machine)
    requires
        q >= 3,
    ensures
        Machine::new(two(Term::block(a), op(opcode))).run(b, q) == m.run(b, (q - 2) as nat),
        m.stack == Seq::<Scope>::empty(),
        m.frame == execute(
            Scope { con: seq![Term::Id], env: seq![Term::block(a)], err: Seq::empty() },
            false,
            opcode,
            op(opcode),
        ).0,
{
    let m0 = Machine::new(two(Term::block(a), op(opcode)));
    lemma_step_value(m0, b, Term::block(a), one(op(opcode)));
    lemma_run_step(m0, b, q);
    let m1 = m0.step(b).machine;
    assert(m1.frame.con =~= seq![one(op(opcode))]);
    assert(m1.frame.env =~= seq![Term::block(a)]);
    assert(m1.frame.err =~= Seq::<Term>::empty());
    lemma_step_opcode(m1, b, opcode, Term::Id);
    lemma_run_step(m1, b, (q - 1) as nat);
    let m2 = m1.step(b).machine;
    assert(seq![Term::Id] + m1.frame.con.drop_first() =~= seq![Term::Id]);
    assert(m2.stack =~= Seq::<Scope>::empty());
    m2
}

/// The machine after a program of two blocks and one combinator has
/// pushed the blocks and fetched the combinator.
proof fn lemma_binary(a: Term, c: Term, opcode: Opcode, b: Bindings, q: nat) -> (m: Machine)
    requires
        q >= 4,
    ensures
        Machine::new(three(Term::block(a), Term::block(c), op(opcode))).run(b, q) == m.run(
            b,
            (q - 3) as nat,
        ),
        m.stack == Seq::<Scope>::empty(),
        m.frame == execute(
            Scope {
                con: seq![Term::Id],
                env: seq![Term::block(a), Term::block(c)],
                err: Seq::empty(),
            },
            false,
            opcode,
            op(opcode),
        ).0,
{
    let m0 = Machine::new(three(Term::block(a), Term::block(c), op(opcode)));
    lemma_step_value(m0, b, Term::block(a), two(Term::block(c), op(opcode)));
    lemma_run_step(m0, b, q);
    let m1 = m0.step(b).machine;
    assert(m1.frame.con =~= seq![two(Term::block(c), op(opcode))]);
    assert(m1.frame.env =~= seq![Term::block(a)]);
    lemma_step_value(m1, b, Term::block(c), one(op(opcode)));
    lemma_run_step(m1, b, (q - 1) as nat);
    let m2 = m1.step(b).machine;
    assert(m2.frame.con =~= seq![one(op(opcode))]);
    assert(m2.frame.env =~= seq![Term::block(a), Term::block(c)]);
    assert(m2.frame.err =~= Seq::<Term>::empty());
    lemma_step_opcode(m2, b, opcode, Term::Id);
    lemma_run_step(m2, b, (q - 2) as nat);
    let m3 = m2.step(b).machine;
    assert(seq![Term::Id] + m2.frame.con.drop_first() =~= seq![Term::Id]);
    assert(m3.stack =~= Seq::<Scope>::empty());
    m3
}

/// A program of values alone reduces to itself: here one block.
pub proof fn law_block_is_a_value(a: Term, b: Bindings, q: nat)
    requires
        q >= 2,
    ensures
        !Machine::new(one(Term::block(a))).run(b, q).has_continuation(),
        Machine::new(one(Term::block(a))).run(b, q).result() == one(Term::block(a)),
{
    let m0 = Machine::new(one(Term::block(a)));
    lemma_step_value(m0, b, Term::block(a), Term::Id);
    lemma_run_step(m0, b, q);
    let m1 = m0.step(b).machine;
    assert(m1.frame.con =~= seq![Term::Id]);
    assert(m1.frame.env =~= seq![Term::block(a)]);
    assert(m1.frame.err =~= Seq::<Term>::empty());
    assert(m1.stack =~= Seq::<Scope>::empty());
    lemma_finish(m1, b, (q - 1) as nat);
    lemma_chain_one(Term::block(a));
    assert(m1.frame.err + m1.frame.env =~= seq![Term::block(a)]);
}

/// A program of values alone reduces to itself: here two blocks.
pub proof fn law_blocks_are_values(a: Term, c: Term, b: Bindings, q: nat)
    requires
        q >= 3,
    ensures
        !Machine::new(two(Term::block(a), Term::block(c))).run(b, q).has_continuation(),
        Machine::new(two(Term::block(a), Term::block(c))).run(b, q).result() == two(
            Term::block(a),
            Term::block(c),
        ),
{
    let m0 = Machine::new(two(Term::block(a), Term::block(c)));
    lemma_step_value(m0, b, Term::block(a), one(Term::block(c)));
    lemma_run_step(m0, b, q);
    let m1 = m0.step(b).machine;
    assert(m1.frame.con =~= seq![one(Term::block(c))]);
    assert(m1.frame.env =~= seq![Term::block(a)]);
    lemma_step_value(m1, b, Term::block(c), Term::Id);
    lemma_run_step(m1, b, (q - 1) as nat);
    let m2 = m1.step(b).machine;
    assert(m2.frame.con =~= seq![Term::Id]);
    assert(m2.frame.env =~= seq![Term::block(a), Term::block(c)]);
    assert(m2.frame.err =~= Seq::<Term>::empty());
    assert(m2.stack =~= Seq::<Scope>::empty());
    lemma_finish(m2, b, (q - 2) as nat);
    lemma_chain_two(Term::block(a), Term::block(c));
    assert(m2.frame.err + m2.frame.env =~= seq![Term::block(a), Term::block(c)]);
}

/// The chain of one atom.
pub proof fn lemma_chain_one(x: Term)
    requires
        !(x is Id),
        !(x is Sequence),
    ensures
        chain(seq![x]) == one(x),
{
    assert(seq![x].drop_first() =~= Seq::<Term>::empty());
    assert(chain(seq![x]) == cat(x, chain(seq![x].drop_first())));
    assert(chain(Seq::<Term>::empty()) == Term::Id);
}

/// The chain of two atoms.
pub proof fn lemma_chain_two(x: Term, y: Term)
    requires
        !(x is Id),
        !(x is Sequence),
        !(y is Id),
        !(y is Sequence),
    ensures
        chain(seq![x, y]) == two(x, y),
{
    assert(seq![x, y].drop_first() =~= seq![y]);
    assert(chain(seq![x, y]) == cat(x, chain(seq![x, y].drop_first())));
    lemma_chain_one(y);
}

/// `[A] box` reduces to the block around the block: its text is that of
/// `[[A]]`, which reduces to itself.
pub proof fn law_box(a: Term, b: Bindings, q: nat)
    requires
        q >= 3,
    ensures
        !Machine::new(two(Term::block(a), op(Opcode::Box))).run(b, q).has_continuation(),
        Machine::new(two(Term::block(a), op(Opcode::Box))).run(b, q).result() == one(
            Term::block(Term::block(a)),
        ),
        text_of(one(Term::block(Term::block(a)))) == text_of(
            Machine::new(one(Term::block(one(Term::block(a))))).run(b, q).result(),
        ),
{
    let m = lemma_unary(a, Opcode::Box, b, q);
    let f = Scope { con: seq![Term::Id], env: seq![Term::block(a)], err: Seq::empty() };
    assert(f.top() == Term::block(a));
    assert(f.below(1) =~= Seq::<Term>::empty());
    assert(m.frame.env =~= seq![Term::block(Term::block(a))]);
    lemma_finish(m, b, (q - 2) as nat);
    assert(m.frame.err + m.frame.env =~= seq![Term::block(Term::block(a))]);
    lemma_chain_one(Term::block(Term::block(a)));
    law_block_is_a_value(one(Term::block(a)), b, q);
    lemma_text_block(a);
}

/// The text of a block around one block is the text of the block around
/// the block.
pub proof fn lemma_text_block(a: Term)
    ensures
        text_of(one(Term::block(Term::block(a)))) == text_of(
            one(Term::block(one(Term::block(a)))),
        ),
{
    assert(text_of(one(Term::block(a))) == text_of(Term::block(a)));
    assert(text_of(Term::block(one(Term::block(a)))) == seq!['['] + text_of(
        one(Term::block(a)),
    ) + seq![']']);
    assert(text_of(Term::block(Term::block(a))) == seq!['['] + text_of(Term::block(a)) + seq![
        ']',
    ]);
}

/// `[A] [B] cat` reduces to the block of `A` followed by `B`, as `[A B]`
/// does.
pub proof fn law_cat(a: Term, c: Term, b: Bindings, q: nat)
    requires
        q >= 4,
    ensures
        !Machine::new(three(Term::block(a), Term::block(c), op(Opcode::Cat))).run(
            b,
            q,
        ).has_continuation(),
        Machine::new(three(Term::block(a), Term::block(c), op(Opcode::Cat))).run(b, q).result()
            == one(Term::block(cat(a, c))),
        Machine::new(one(Term::block(cat(a, c)))).run(b, q).result() == one(
            Term::block(cat(a, c)),
        ),
{
    let m = lemma_binary(a, c, Opcode::Cat, b, q);
    let f = Scope {
        con: seq![Term::Id],
        env: seq![Term::block(a), Term::block(c)],
        err: Seq::empty(),
    };
    assert(f.top() == Term::block(c));
    assert(f.second() == Term::block(a));
    assert(f.below(2) =~= Seq::<Term>::empty());
    assert(m.frame.env =~= seq![Term::block(cat(a, c))]);
    lemma_finish(m, b, (q - 3) as nat);
    assert(m.frame.err + m.frame.env =~= seq![Term::block(cat(a, c))]);
    lemma_chain_one(Term::block(cat(a, c)));
    law_block_is_a_value(cat(a, c), b, q);
}

/// `[A] copy` reduces to the block twice, as `[A] [A]` does.
pub proof fn law_copy(a: Term, b: Bindings, q: nat)
    requires
        q >= 3,
    ensures
        !Machine::new(two(Term::block(a), op(Opcode::Copy))).run(b, q).has_continuation(),
        Machine::new(two(Term::block(a), op(Opcode::Copy))).run(b, q).result() == two(
            Term::block(a),
            Term::block(a),
        ),
        Machine::new(two(Term::block(a), Term::block(a))).run(b, q).result() == two(
            Term::block(a),
            Term::block(a),
        ),
{
    let m = lemma_unary(a, Opcode::Copy, b, q);
    let f = Scope { con: seq![Term::Id], env: seq![Term::block(a)], err: Seq::empty() };
    assert(f.top() == Term::block(a));
    assert(m.frame.env =~= seq![Term::block(a), Term::block(a)]);
    lemma_finish(m, b, (q - 2) as nat);
    assert(m.frame.err + m.frame.env =~= seq![Term::block(a), Term::block(a)]);
    lemma_chain_two(Term::block(a), Term::block(a));
    law_blocks_are_values(a, a, b, q);
}

/// `[A] drop` reduces to the empty program.
pub proof fn law_drop(a: Term, b: Bindings, q: nat)
    requires
        q >= 3,
    ensures
        !Machine::new(two(Term::block(a), op(Opcode::Drop))).run(b, q).has_continuation(),
        Machine::new(two(Term::block(a), op(Opcode::Drop))).run(b, q).result() == Term::Id,
        text_of(Term::Id) == Seq::<char>::empty(),
{
    let m = lemma_unary(a, Opcode::Drop, b, q);
    let f = Scope { con: seq![Term::Id], env: seq![Term::block(a)], err: Seq::empty() };
    assert(f.below(1) =~= Seq::<Term>::empty());
    assert(m.frame.env =~= Seq::<Term>::empty());
    lemma_finish(m, b, (q - 2) as nat);
    assert(m.frame.err + m.frame.env =~= Seq::<Term>::empty());
}

/// `[A] [B] swap` reduces to the blocks in the other order, as `[B] [A]`
/// does.
pub proof fn law_swap(a: Term, c: Term, b: Bindings, q: nat)
    requires
        q >= 4,
    ensures
        !Machine::new(three(Term::block(a), Term::block(c), op(Opcode::Swap))).run(
            b,
            q,
        ).has_continuation(),
        Machine::new(three(Term::block(a), Term::block(c), op(Opcode::Swap))).run(b, q).result()
            == two(Term::block(c), Term::block(a)),
        Machine::new(two(Term::block(c), Term::block(a))).run(b, q).result() == two(
            Term::block(c),
            Term::block(a),
        ),
{
    let m = lemma_binary(a, c, Opcode::Swap, b, q);
    let f = Scope {
        con: seq![Term::Id],
        env: seq![Term::block(a), Term::block(c)],
        err: Seq::empty(),
    };
    assert(f.top() == Term::block(c));
    assert(f.second() == Term::block(a));
    assert(f.below(2) =~= Seq::<Term>::empty());
    assert(m.frame.env =~= seq![Term::block(c), Term::block(a)]);
    lemma_finish(m, b, (q - 3) as nat);
    assert(m.frame.err + m.frame.env =~= seq![Term::block(c), Term::block(a)]);
    lemma_chain_two(Term::block(c), Term::block(a));
    law_blocks_are_values(c, a, b, q);
}

/// `[A] fix` reduces to the block that holds the block, `fix`, and then
/// `A`, as `[[A] fix A]` does.
pub proof fn law_fix(a: Term, b: Bindings, q: nat)
    requires
        q >= 3,
    ensures
        !Machine::new(two(Term::block(a), op(Opcode::Fix))).run(b, q).has_continuation(),
        Machine::new(two(Term::block(a), op(Opcode::Fix))).run(b, q).result() == one(
            Term::block(Term::pair(Term::block(a), Term::pair(op(Opcode::Fix), a))),
        ),
        Machine::new(
            one(Term::block(Term::pair(Term::block(a), Term::pair(op(Opcode::Fix), a)))),
        ).run(b, q).result() == one(
            Term::block(Term::pair(Term::block(a), Term::pair(op(Opcode::Fix), a))),
        ),
{
    let m = lemma_unary(a, Opcode::Fix, b, q);
    let f = Scope { con: seq![Term::Id], env: seq![Term::block(a)], err: Seq::empty() };
    let fixed = Term::pair(Term::block(a), Term::pair(op(Opcode::Fix), a));
    assert(f.top() == Term::block(a));
    assert(f.below(1) =~= Seq::<Term>::empty());
    assert(cat(Term::block(a), op(Opcode::Fix)) == Term::pair(Term::block(a), op(Opcode::Fix)));
    assert(cat(op(Opcode::Fix), a) == Term::pair(op(Opcode::Fix), a));
    assert(cat(Term::pair(Term::block(a), op(Opcode::Fix)), a) == cat(
        Term::block(a),
        cat(op(Opcode::Fix), a),
    ));
    assert(cat(cat(Term::block(a), op(Opcode::Fix)), a) == fixed);
    assert(m.frame.env =~= seq![Term::block(fixed)]);
    lemma_finish(m, b, (q - 2) as nat);
    assert(m.frame.err + m.frame.env =~= seq![Term::block(fixed)]);
    lemma_chain_one(Term::block(fixed));
    law_block_is_a_value(fixed, b, q);
}

/// A combinator that finds too few values gets stuck: `[A] cat` and
/// `[A] swap` reduce to themselves.
pub proof fn law_stuck_combinator(a: Term, opcode: Opcode, b: Bindings, q: nat)
    requires
        q >= 3,
        opcode == Opcode::Cat || opcode == Opcode::Swap,
    ensures
        !Machine::new(two(Term::block(a), op(opcode))).run(b, q).has_continuation(),
        Machine::new(two(Term::block(a), op(opcode))).run(b, q).result() == two(
            Term::block(a),
            op(opcode),
        ),
{
    let m = lemma_unary(a, opcode, b, q);
    let f = Scope { con: seq![Term::Id], env: seq![Term::block(a)], err: Seq::empty() };
    assert(!ready(f, false, opcode));
    assert(m.frame.err =~= seq![Term::block(a), op(opcode)]);
    assert(m.frame.env =~= Seq::<Term>::empty());
    lemma_finish(m, b, (q - 2) as nat);
    assert(m.frame.err + m.frame.env =~= seq![Term::block(a), op(opcode)]);
    lemma_chain_two(Term::block(a), op(opcode));
}

/// A word that is not bound gets stuck: it reduces to itself.
pub proof fn law_stuck_word(name: Seq<char>, b: Bindings, q: nat)
    requires
        q >= 2,
        !b.contains_key(name),
    ensures
        !Machine::new(one(Term::Word(name))).run(b, q).has_continuation(),
        Machine::new(one(Term::Word(name))).run(b, q).result() == one(Term::Word(name)),
{
    let m0 = Machine::new(one(Term::Word(name)));
    lemma_fetch_pair(m0, Term::Word(name), Term::Id);
    lemma_run_step(m0, b, q);
    let m1 = m0.step(b).machine;
    assert(m1.frame.con =~= seq![Term::Id]);
    assert(m1.frame.err =~= seq![Term::Word(name)]);
    assert(m1.frame.env =~= Seq::<Term>::empty());
    assert(m1.stack =~= Seq::<Scope>::empty());
    lemma_finish(m1, b, (q - 1) as nat);
    assert(m1.frame.err + m1.frame.env =~= seq![Term::Word(name)]);
    lemma_chain_one(Term::Word(name));
}

/// `shift` in a scope hands over what the scope has left behind and what
/// it has left to run.  Where the code of a frame above another is
/// `[K] shift` followed by the rest, two steps later the frame is about to
/// run `K` on two blocks: the residue of the frame, and the rest of its
/// code.
pub proof fn law_shift(m: Machine, k: Term, rest: Term, b: Bindings)
    requires
        m.stack.len() > 0,
        m.frame.con == seq![two_then(Term::block(k), op(Opcode::Shift), rest)],
    ensures
        m.step(b).machine.step(b).machine.stack == m.stack,
        m.step(b).machine.step(b).machine.frame == (Scope {
            con: seq![k],
            env: seq![
                Term::block(chain(m.frame.residue())),
                Term::block(chain(seq![rest])),
            ],
            err: Seq::empty(),
        }),
{
    let head = Term::block(k);
    lemma_step_value(m, b, head, Term::pair(op(Opcode::Shift), rest));
    let m1 = m.step(b).machine;
    assert(m1.frame.con =~= seq![Term::pair(op(Opcode::Shift), rest)]);
    lemma_step_opcode(m1, b, Opcode::Shift, rest);
    let f = Scope {
        con: seq![rest] + m1.frame.con.drop_first(),
        env: m1.frame.env,
        err: m1.frame.err,
    };
    assert(f.con =~= seq![rest]);
    assert(f.top() == head);
    assert(f.below(1) =~= m.frame.env);
    assert(ready(f, true, Opcode::Shift));
    let left = Scope { con: f.con, env: f.below(1), err: f.err };
    assert(left.residue() =~= m.frame.residue());
}

/// A fresh scope that begins with two blocks and goes on with `K` is,
/// two steps later, about to run `K` on the two blocks: the state in which
/// `shift` leaves a scope whose residue and whose code are the bodies of
/// the two blocks, and which runs the handler `K`.
pub proof fn law_shift_as_values(e: Term, c: Term, k: Term, stack: Seq<Scope>, b: Bindings)
    ensures
        (Machine {
            frame: Scope::new(two_then(Term::block(e), Term::block(c), k)),
            stack: stack,
        }).step(b).machine.step(b).machine == (Machine {
            frame: Scope {
                con: seq![k],
                env: seq![Term::block(e), Term::block(c)],
                err: Seq::empty(),
            },
            stack: stack,
        }),
{
    let n = Machine {
        frame: Scope::new(two_then(Term::block(e), Term::block(c), k)),
        stack: stack,
    };
    lemma_step_value(n, b, Term::block(e), Term::pair(Term::block(c), k));
    let n1 = n.step(b).machine;
    assert(n1.frame.con =~= seq![Term::pair(Term::block(c), k)]);
    lemma_step_value(n1, b, Term::block(c), k);
    let n2 = n1.step(b).machine;
    assert(n2.frame.con =~= seq![k]);
    assert(n2.frame.env =~= seq![Term::block(e), Term::block(c)]);
}

/// Two terms followed by a program.
pub open spec fn two_then(x: Term, y: Term, rest: Term) -> Term {
    Term::pair(x, Term::pair(y, rest))
}


/// Whether a term is a chain of atoms that ends in the empty program.
pub open spec fn normal(t: Term) -> bool
    decreases t,
{
    match t {
        Term::Id => true,
        Term::Sequence(x, rest) => !(*x is Id) && !(*x is Sequence) && normal(*rest),
        _ => false,
    }
}

/// Joining a term to a chain gives a chain.
pub proof fn lemma_cat_normal(a: Term, n: Term)
    requires
        normal(n),
    ensures
        normal(cat(a, n)),
    decreases a,
{
    match a {
        Term::Sequence(x, y) => {
            lemma_cat_normal(*y, n);
            lemma_cat_normal(*x, cat(*y, n));
        },
        _ => {},
    }
}

/// A chain of terms is a chain of atoms.
pub proof fn lemma_chain_normal(items: Seq<Term>)
    ensures
        normal(chain(items)),
    decreases items.len(),
{
    if items.len() > 0 {
        lemma_chain_normal(items.drop_first());
        lemma_cat_normal(items[0], chain(items.drop_first()));
    }
}

/// The empty program behind a chain changes nothing.
pub proof fn lemma_cat_id(n: Term)
    requires
        normal(n),
    ensures
        cat(n, Term::Id) == n,
    decreases n,
{
    match n {
        Term::Sequence(x, rest) => {
            lemma_cat_id(*rest);
            assert(cat(*x, cat(*rest, Term::Id)) == Term::pair(*x, *rest));
        },
        _ => {},
    }
}

/// The empty program at the end of the code changes nothing in its chain.
pub proof fn lemma_chain_push_id(c: Seq<Term>)
    ensures
        chain(c.push(Term::Id)) == chain(c),
    decreases c.len(),
{
    if c.len() == 0 {
        assert(c.push(Term::Id).drop_first() =~= Seq::<Term>::empty());
        assert(chain(c.push(Term::Id)) == cat(Term::Id, chain(c.push(Term::Id).drop_first())));
    } else {
        lemma_chain_push_id(c.drop_first());
        assert(c.push(Term::Id).drop_first() =~= c.drop_first().push(Term::Id));
    }
}

/// The frame with the empty program behind its code.
pub open spec fn padded(f: Scope) -> Scope {
    f.with_con(f.con.push(Term::Id))
}

/// Whether the first machine is the second with the empty program behind
/// the code of its lowest frame.
pub open spec fn trails(m1: Machine, m2: Machine) -> bool {
    &&& m1.stack.len() == m2.stack.len()
    &&& if m2.stack.len() == 0 {
        m1.frame == padded(m2.frame)
    } else {
        &&& m1.frame == m2.frame
        &&& m1.stack[0] == padded(m2.stack[0])
        &&& forall|i: int| 1 <= i < m2.stack.len() ==> m1.stack[i] == m2.stack[i]
    }
}

/// A fetch finds the same term in both machines and keeps them as they
/// are to each other; or the second machine has nothing left, the first
/// finds the empty program, and both are the same afterwards.
pub proof fn lemma_fetch_trails(m1: Machine, m2: Machine)
    requires
        trails(m1, m2),
    ensures
        (m1.fetch().code == m2.fetch().code && m2.fetch().code is Some && trails(
            m1.fetch().machine,
            m2.fetch().machine,
        )) || (m2.fetch().code is None && m1.fetch().code == Some(Term::Id) && m1.fetch().machine
            == m2.fetch().machine),
    decreases m2.stack.len(), m2.front(),
{
    if m2.frame.con.len() == 0 {
        if m2.stack.len() == 0 {
            assert(m1.frame.con =~= seq![Term::Id]);
            assert(m1.frame.con.drop_first() =~= m2.frame.con);
            assert(m1.fetch().machine.frame.con =~= m2.frame.con);
            assert(m1.stack =~= m2.stack);
            assert(m1.fetch().code == Some(Term::Id));
            assert(m1.fetch().machine.frame == m2.frame);
            assert(m1.fetch().machine == m2);
            assert(m2.fetch().machine == m2);
        } else {
            let n1 = m1.leave();
            let n2 = m2.leave();
            assert(trails(n1, n2)) by {
                if m2.stack.len() == 1 {
                    assert(m1.stack.last() == padded(m2.stack.last()));
                    assert(n1.stack =~= n2.stack);
                } else {
                    assert(m1.stack.last() == m2.stack.last());
                    assert(n1.stack[0] == m1.stack[0]);
                    assert(n2.stack[0] == m2.stack[0]);
                    assert forall|i: int| 1 <= i < n2.stack.len() implies n1.stack[i]
                        == n2.stack[i] by {
                        assert(n1.stack[i] == m1.stack[i]);
                        assert(n2.stack[i] == m2.stack[i]);
                    }
                }
            }
            lemma_fetch_trails(n1, n2);
        }
    } else {
        let code = m2.frame.con[0];
        let rest = m2.frame.con.drop_first();
        assert(m1.frame.con[0] == code);
        if m2.stack.len() == 0 {
            assert(m1.frame.con.drop_first() =~= rest.push(Term::Id));
        }
        match code {
            Term::Sequence(fst, snd) => {
                let n1 = m1.with_frame(
                    m1.frame.with_con(seq![*fst, *snd] + m1.frame.con.drop_first()),
                );
                let n2 = m2.with_frame(m2.frame.with_con(seq![*fst, *snd] + rest));
                if m2.stack.len() == 0 {
                    assert(n1.frame.con =~= n2.frame.con.push(Term::Id));
                }
                assert(trails(n1, n2));
                assert(n2.front() == *fst);
                lemma_fetch_trails(n1, n2);
            },
            _ => {
                let n1 = m1.fetch().machine;
                let n2 = m2.fetch().machine;
                assert(trails(n1, n2));
            },
        }
    }
}

/// Acting on the same term keeps two machines as they are to each other.
pub proof fn lemma_act_trails(m1: Machine, m2: Machine, code: Term, b: Bindings)
    requires
        trails(m1, m2),
    ensures
        trails(m1.act(code, b).machine, m2.act(code, b).machine),
{
    let n1 = m1.act(code, b).machine;
    let n2 = m2.act(code, b).machine;
    match code {
        Term::Arrow(body) => {
            if m2.stack.len() > 0 {
                assert(n1.stack[0] == m1.stack[0]);
                assert(n2.stack[0] == m2.stack[0]);
                assert forall|i: int| 1 <= i < n2.stack.len() implies n1.stack[i]
                    == n2.stack[i] by {
                    if i < m2.stack.len() {
                        assert(n1.stack[i] == m1.stack[i]);
                        assert(n2.stack[i] == m2.stack[i]);
                    }
                }
            }
        },
        Term::Word(name) => {
            if m2.stack.len() == 0 && b.contains_key(name) {
                assert((seq![b[name]] + m2.frame.con).push(Term::Id) =~= seq![b[name]]
                    + m2.frame.con.push(Term::Id));
            }
        },
        Term::Opcode(opcode) => {
            if m2.stack.len() == 0 {
                let f2 = m2.frame;
                let f1 = m1.frame;
                assert(ready(f1, false, opcode) == ready(f2, false, opcode));
                if ready(f2, false, opcode) {
                    match opcode {
                        Opcode::App => {
                            assert((seq![*f2.top()->Block_0] + f2.con).push(Term::Id)
                                =~= seq![*f1.top()->Block_0] + f1.con);
                        },
                        Opcode::Run => {
                            assert((seq![Term::Arrow(f2.top()->Block_0)] + f2.con).push(
                                Term::Id,
                            ) =~= seq![Term::Arrow(f1.top()->Block_0)] + f1.con);
                        },
                        _ => {},
                    }
                }
            }
        },
        _ => {},
    }
}

/// Two machines of which one has the empty program behind the code of its
/// lowest frame have the same result after every run.
pub proof fn lemma_run_trails(m1: Machine, m2: Machine, b: Bindings, q: nat)
    requires
        trails(m1, m2) || m1 == m2,
    ensures
        m1.run(b, q).result() == m2.run(b, q).result(),
    decreases q,
{
    if m1 == m2 {
    } else if q == 0 {
        if m2.stack.len() == 0 {
            lemma_chain_push_id(m2.frame.con);
            lemma_chain_normal(m2.frame.residue());
            lemma_cat_id(chain(m2.frame.residue()));
            if m2.frame.con.len() == 0 {
                assert(chain(m2.frame.con) == Term::Id);
            }
        }
    } else if !m2.has_continuation() {
        lemma_fetch_trails(m1, m2);
        assert(m1.step(b).machine == m2);
        lemma_run_step(m1, b, q);
        lemma_run_done(m2, b, (q - 1) as nat);
    } else {
        lemma_fetch_trails(m1, m2);
        match m2.fetch().code {
            Some(code) => {
                lemma_act_trails(m1.fetch().machine, m2.fetch().machine, code, b);
            },
            None => {},
        }
        lemma_run_trails(m1.step(b).machine, m2.step(b).machine, b, (q - 1) as nat);
    }
}

/// `[A] app` reduces to what `A` reduces to: the result after two steps
/// more is the result of reducing the body of the block.
pub proof fn law_app_runs_the_body(a: Term, b: Bindings, q: nat)
    ensures
        Machine::new(two(Term::block(a), op(Opcode::App))).run(b, q + 2).result() == Machine::new(
            a,
        ).run(b, q).result(),
{
    law_app(a, b, q);
    let m1 = flat(seq![a, Term::Id], Seq::empty(), Seq::empty());
    let m2 = Machine::new(a);
    assert(m2.frame.con.push(Term::Id) =~= m1.frame.con);
    assert(m1.stack =~= m2.stack);
    assert(trails(m1, m2));
    lemma_run_trails(m1, m2, b, q);
}


/// The result of a reduction is a chain of atoms that ends in the empty
/// program.
pub proof fn law_result_is_a_chain(m: Machine)
    ensures
        normal(m.result()),
{
    lemma_chain_normal(m.frame.residue());
    lemma_chain_normal(m.frame.con);
    lemma_cat_normal(chain(m.frame.residue()), chain(m.frame.con));
}

/// The text of two chains joined is the text of the first, a space, and
/// the text of the second; without the space where one of them is empty.
pub proof fn law_cat_text(a: Term, c: Term)
    requires
        normal(a),
        normal(c),
    ensures
        text_of(cat(a, c)) == if a is Id {
            text_of(c)
        } else if c is Id {
            text_of(a)
        } else {
            text_of(a) + seq![' '] + text_of(c)
        },
        cat(a, c) is Id <==> a is Id && c is Id,
    decreases a,
{
    match a {
        Term::Sequence(x, rest) => {
            law_cat_text(*rest, c);
            assert(cat(a, c) == cat(*x, cat(*rest, c)));
            assert(cat(*x, cat(*rest, c)) == Term::pair(*x, cat(*rest, c)));
            let head = text_of(*x);
            if !(*rest is Id) && !(c is Id) {
                assert(head + seq![' '] + (text_of(*rest) + seq![' '] + text_of(c)) =~= (head
                    + seq![' '] + text_of(*rest)) + seq![' '] + text_of(c));
            }
        },
        _ => {},
    }
}

} // verus!
