use vstd::prelude::*;
use crate::error::Error;
use crate::heap::Heap;
use crate::heap::HeapView;
use crate::heap::Object;
use crate::heap::Ptr;
use crate::heap::lemma_extends_terms;
use crate::heap::lemma_extends_trans;
use crate::heap::lemma_live_denotes;
use crate::heap::lemma_terms_push;
use crate::term::Term;
use crate::term::atoms;
use crate::term::chain;
use crate::term::chain_cost;
use crate::text::Numeral;
use crate::text::hint_named;
use crate::text::hint_of;
use crate::text::number_of;
use crate::text::opcode_name;
use crate::text::opcode_named;
use crate::text::opcode_of;
use crate::text::opcode_text;
use crate::text::read_number;
use crate::text::same_text;
use crate::text::texts;
use crate::text::tokens;
use crate::text::tokens_of;

verus! {

/// The text of a term: nothing for the empty program, a number by its
/// decimal text, a word by its name, a hint between round brackets, a
/// combinator by its name, a block between square brackets, a scope between
/// curly brackets and spaces, and a sequence as its parts with one space
/// between them, unless the second part is empty.
pub open spec fn text_of(t: Term) -> Seq<char>
    decreases t,
{
    match t {
        Term::Id => Seq::empty(),
        Term::Number(_, text) => text,
        Term::Word(name) => name,
        Term::Hint(name) => seq!['('] + name + seq![')'],
        Term::Opcode(opcode) => opcode_name(opcode),
        Term::Block(body) => seq!['['] + text_of(*body) + seq![']'],
        Term::Arrow(body) => seq!['{', ' '] + text_of(*body) + seq![' ', '}'],
        Term::Sequence(fst, snd) => if *snd is Id {
            text_of(*fst)
        } else {
            text_of(*fst) + seq![' '] + text_of(*snd)
        },
    }
}

/// The term of a token that is no bracket: a combinator if the token names
/// one, else a hint if it writes one, else a number if the table reads it
/// as one, else a word.
pub open spec fn atom(token: Seq<char>, table: Seq<Numeral>) -> Term {
    match opcode_named(token) {
        Some(opcode) => Term::Opcode(opcode),
        None => match hint_named(token) {
            Some(name) => Term::Hint(name),
            None => match read_number(table, token) {
                Some(numeral) => Term::Number(numeral.bits, numeral.text@),
                None => Term::Word(token),
            },
        },
    }
}

/// Whether a token opens a scope, and if so whether the scope is a block.
pub open spec fn opens(token: Seq<char>) -> Option<bool> {
    if token == seq!['['] {
        Some(true)
    } else if token == seq!['{'] {
        Some(false)
    } else {
        None
    }
}

/// Whether a token closes a scope, and if so whether the scope is a block.
pub open spec fn closes(token: Seq<char>) -> Option<bool> {
    if token == seq![']'] {
        Some(true)
    } else if token == seq!['}'] {
        Some(false)
    } else {
        None
    }
}

/// A scope that is open while the tokens are read: its kind, and the items
/// that stood before it in the scope around it.
pub struct Level {
    pub block: bool,
    pub items: Seq<Term>,
}

/// The items wrapped as the scope says.
pub open spec fn wrap(block: bool, items: Seq<Term>) -> Term {
    if block {
        Term::block(chain(items))
    } else {
        Term::arrow(chain(items))
    }
}

/// The term that the tokens stand for, read within the open scopes
/// `stack` and after the items `build` of the innermost one; `None` where
/// the brackets do not match.
pub open spec fn parse_tokens(
    tokens: Seq<Seq<char>>,
    table: Seq<Numeral>,
    stack: Seq<Level>,
    build: Seq<Term>,
) -> Option<Term>
    decreases tokens.len(),
{
    if tokens.len() == 0 {
        if stack.len() == 0 {
            Some(chain(build))
        } else {
            None
        }
    } else {
        let token = tokens[0];
        let rest = tokens.drop_first();
        if opens(token) is Some {
            parse_tokens(
                rest,
                table,
                stack.push(Level { block: opens(token)->0, items: build }),
                Seq::empty(),
            )
        } else if closes(token) is Some {
            if stack.len() > 0 && stack.last().block == closes(token)->0 {
                parse_tokens(
                    rest,
                    table,
                    stack.drop_last(),
                    stack.last().items.push(wrap(stack.last().block, build)),
                )
            } else {
                None
            }
        } else {
            parse_tokens(rest, table, stack, build.push(atom(token, table)))
        }
    }
}

/// The term that a source text stands for; `None` where its brackets do
/// not match.
pub open spec fn parse_text(src: Seq<char>, table: Seq<Numeral>) -> Option<Term> {
    parse_tokens(tokens_of(src), table, Seq::empty(), Seq::empty())
}

/// The nodes that reading the tokens allocates before it ends, in a term
/// or at a bracket that does not match: one for a token that is no bracket,
/// and for a scope that closes its chain and the scope itself.
pub open spec fn parse_need(
    tokens: Seq<Seq<char>>,
    table: Seq<Numeral>,
    stack: Seq<Level>,
    build: Seq<Term>,
) -> nat
    decreases tokens.len(),
{
    if tokens.len() == 0 {
        if stack.len() == 0 {
            build.len() + 1
        } else {
            0
        }
    } else {
        let token = tokens[0];
        let rest = tokens.drop_first();
        if opens(token) is Some {
            parse_need(
                rest,
                table,
                stack.push(Level { block: opens(token)->0, items: build }),
                Seq::empty(),
            )
        } else if closes(token) is Some {
            if stack.len() > 0 && stack.last().block == closes(token)->0 {
                build.len() + 2 + parse_need(
                    rest,
                    table,
                    stack.drop_last(),
                    stack.last().items.push(wrap(stack.last().block, build)),
                )
            } else {
                0
            }
        } else {
            1 + parse_need(rest, table, stack, build.push(atom(token, table)))
        }
    }
}

/// The nodes that parsing a source text allocates before it ends.
pub open spec fn parse_cost(src: Seq<char>, table: Seq<Numeral>) -> nat {
    parse_need(tokens_of(src), table, Seq::empty(), Seq::empty())
}

/// Whether every item is a single atom: neither empty nor a sequence.
pub open spec fn atomic(items: Seq<Term>) -> bool {
    forall|k: int| 0 <= k < items.len() ==> atoms(#[trigger] items[k]) == 1
}

/// Whether the references stand for the open scopes in the heap.
pub open spec fn holds(
    h: HeapView,
    stack: Seq<Vec<Ptr>>,
    brackets: Seq<bool>,
    levels: Seq<Level>,
) -> bool {
    &&& stack.len() == levels.len()
    &&& brackets.len() == levels.len()
    &&& forall|l: int|
        0 <= l < levels.len() ==> {
            &&& brackets[l] == (#[trigger] levels[l]).block
            &&& h.all_live(stack[l]@)
            &&& h.terms(stack[l]@) == levels[l].items
            &&& atomic(levels[l].items)
        }
}

proof fn lemma_holds_extends(
    old: HeapView,
    new: HeapView,
    stack: Seq<Vec<Ptr>>,
    brackets: Seq<bool>,
    levels: Seq<Level>,
)
    requires
        new.extends(old),
        holds(old, stack, brackets, levels),
    ensures
        holds(new, stack, brackets, levels),
{
    assert forall|l: int| 0 <= l < levels.len() implies {
        &&& brackets[l] == (#[trigger] levels[l]).block
        &&& new.all_live(stack[l]@)
        &&& new.terms(stack[l]@) == levels[l].items
        &&& atomic(levels[l].items)
    } by {
        let level = levels[l];
        assert(old.all_live(stack[l]@));
        lemma_extends_terms(old, new, stack[l]@);
    }
}

/// A chain of atoms costs one node for each and one for its end.
pub proof fn lemma_chain_cost_atomic(items: Seq<Term>)
    requires
        atomic(items),
    ensures
        chain_cost(items) == items.len() + 1,
    decreases items.len(),
{
    if items.len() > 0 {
        assert(atoms(items[0]) == 1);
        assert forall|k: int| 0 <= k < items.drop_first().len() implies atoms(
            #[trigger] items.drop_first()[k],
        ) == 1 by {
            assert(atoms(items[k + 1]) == 1);
        }
        lemma_chain_cost_atomic(items.drop_first());
    }
}

impl Heap {
    /// Allocates the term of a token that is no bracket.  Fails with
    /// `Space` exactly when no slot is vacant.
    pub fn new_atom(&mut self, token: &String, numerals: &Vec<Numeral>) -> (r: Result<Ptr, Error>)
        requires
            old(self)@.wf(),
        ensures
            final(self)@.wf(),
            match r {
                Ok(p) => final(self)@.allocated(old(self)@, p, atom(token@, numerals@)),
                Err(e) => final(self)@ == old(self)@ && e == Error::Space && old(self)@.vacant()
                    == 0,
            },
    {
        match opcode_of(token.as_str()) {
            Some(opcode) => self.new_opcode(opcode),
            None => match hint_of(token.as_str()) {
                Some(name) => self.new_hint(name),
                None => match number_of(numerals, token) {
                    Some(k) => self.new_number(numerals[k].bits, numerals[k].text.clone()),
                    None => self.new_word(token.clone()),
                },
            },
        }
    }

    /// Appends the text of the term that `root` refers to.  Fails with
    /// `Null` exactly when `root` is stale, and then appends nothing.
    pub fn quote(&self, root: Ptr, buf: &mut String) -> (r: Result<(), Error>)
        requires
            self@.wf(),
        ensures
            match r {
                Ok(_) => self@.live(root) && final(buf)@ == old(buf)@ + text_of(self@.term(root)),
                Err(e) => e == Error::Null && !self@.live(root) && final(buf)@ == old(buf)@,
            },
        decreases self@.rank(root),
    {
        proof {
            lemma_live_denotes(self@, root);
            reveal_strlit("(");
            reveal_strlit(")");
            reveal_strlit("[");
            reveal_strlit("]");
            reveal_strlit("{ ");
            reveal_strlit(" }");
            reveal_strlit(" ");
        }
        let object = match self.get_ref(root) {
            Ok(object) => object,
            Err(e) => {
                return Err(e);
            },
        };
        match object {
            Object::Id => {
                assert(buf@ =~= old(buf)@ + text_of(self@.term(root)));
            },
            Object::Number(_, text) => {
                buf.append(text.as_str());
            },
            Object::Word(name) => {
                buf.append(name.as_str());
            },
            Object::Hint(name) => {
                buf.append("(");
                buf.append(name.as_str());
                buf.append(")");
                assert("("@ =~= seq!['(']);
                assert(")"@ =~= seq![')']);
                assert(buf@ =~= old(buf)@ + text_of(self@.term(root)));
            },
            Object::Opcode(opcode) => {
                buf.append(opcode_text(*opcode));
            },
            Object::Block(body) => {
                proof {
                    lemma_live_denotes(self@, *body);
                }
                buf.append("[");
                match self.quote(*body, buf) {
                    Ok(_) => {},
                    Err(e) => {
                        return Err(e);
                    },
                }
                buf.append("]");
                assert("["@ =~= seq!['[']);
                assert("]"@ =~= seq![']']);
                assert(buf@ =~= old(buf)@ + text_of(self@.term(root)));
            },
            Object::Arrow(body) => {
                proof {
                    lemma_live_denotes(self@, *body);
                }
                buf.append("{ ");
                match self.quote(*body, buf) {
                    Ok(_) => {},
                    Err(e) => {
                        return Err(e);
                    },
                }
                buf.append(" }");
                assert("{ "@ =~= seq!['{', ' ']);
                assert(" }"@ =~= seq![' ', '}']);
                assert(buf@ =~= old(buf)@ + text_of(self@.term(root)));
            },
            Object::Sequence(fst, snd) => {
                proof {
                    lemma_live_denotes(self@, *fst);
                    lemma_live_denotes(self@, *snd);
                }
                match self.quote(*fst, buf) {
                    Ok(_) => {},
                    Err(e) => {
                        return Err(e);
                    },
                }
                let empty = match self.is_id(*snd) {
                    Ok(b) => b,
                    Err(e) => {
                        return Err(e);
                    },
                };
                if !empty {
                    buf.append(" ");
                    match self.quote(*snd, buf) {
                        Ok(_) => {},
                        Err(e) => {
                            return Err(e);
                        },
                    }
                    assert(" "@ =~= seq![' ']);
                    assert(buf@ =~= old(buf)@ + text_of(self@.term(root)));
                }
            },
        }
        Ok(())
    }
}


proof fn lemma_atomic_push(items: Seq<Term>, t: Term)
    requires
        atomic(items),
        atoms(t) == 1,
    ensures
        atomic(items.push(t)),
{
    assert forall|k: int| 0 <= k < items.push(t).len() implies atoms(
        #[trigger] items.push(t)[k],
    ) == 1 by {
        if k < items.len() {
            assert(atoms(items[k]) == 1);
        }
    }
}

impl Heap {
    /// Reads a source text into a term and returns a reference to it.  The
    /// table says which tokens are numbers.
    ///
    /// Fails with `Space` exactly when the heap has fewer vacant slots
    /// than reading the text costs, and otherwise with `Syntax` exactly when
    /// the brackets of the text do not match.
    pub fn parse(&mut self, src: &str, numerals: &Vec<Numeral>) -> (r: Result<Ptr, Error>)
        requires
            old(self)@.wf(),
        ensures
            final(self)@.wf(),
            final(self)@.extends(old(self)@),
            match r {
                Ok(p) => {
                    &&& final(self)@.live(p)
                    &&& parse_text(src@, numerals@) == Some(final(self)@.term(p))
                    &&& final(self)@.vacant() + parse_cost(src@, numerals@) == old(self)@.vacant()
                },
                Err(e) => if old(self)@.vacant() < parse_cost(src@, numerals@) {
                    e == Error::Space
                } else {
                    e == Error::Syntax && parse_text(src@, numerals@) is None
                },
            },
    {
        let toks = tokens(src);
        let ghost all = tokens_of(src@);
        let ghost h = self@;
        let mut build: Vec<Ptr> = Vec::new();
        let mut stack: Vec<Vec<Ptr>> = Vec::new();
        let mut brackets: Vec<bool> = Vec::new();
        let ghost mut levels: Seq<Level> = Seq::empty();
        let ghost mut sbuild: Seq<Term> = Seq::empty();
        let mut i: usize = 0;
        proof {
            assert(all.skip(0) =~= all);
            assert(self@.terms(build@) =~= sbuild);
            reveal_strlit("[");
            reveal_strlit("]");
            reveal_strlit("{");
            reveal_strlit("}");
            assert("["@ =~= seq!['[']);
            assert("]"@ =~= seq![']']);
            assert("{"@ =~= seq!['{']);
            assert("}"@ =~= seq!['}']);
        }
        while i < toks.len()
            invariant
                i <= toks@.len(),
                texts(toks@) == all,
                all == tokens_of(src@),
                h == old(self)@,
                "["@ == seq!['['],
                "]"@ == seq![']'],
                "{"@ == seq!['{'],
                "}"@ == seq!['}'],
                self@.wf(),
                self@.extends(h),
                holds(self@, stack@, brackets@, levels),
                self@.all_live(build@),
                self@.terms(build@) == sbuild,
                atomic(sbuild),
                parse_tokens(all.skip(i as int), numerals@, levels, sbuild) == parse_text(
                    src@,
                    numerals@,
                ),
                self@.vacant() + parse_cost(src@, numerals@) == h.vacant() + parse_need(
                    all.skip(i as int),
                    numerals@,
                    levels,
                    sbuild,
                ),
            decreases toks@.len() - i,
        {
            let token = &toks[i];
            let ghost before = self@;
            let ghost rest = all.skip(i as int);
            proof {
                assert(rest.drop_first() =~= all.skip(i + 1));
                assert(rest[0] == token@);
            }
            let open_block = same_text(token.as_str(), "[");
            let open_arrow = same_text(token.as_str(), "{");
            let close_block = same_text(token.as_str(), "]");
            let close_arrow = same_text(token.as_str(), "}");
            if open_block || open_arrow {
                proof {
                    assert(opens(token@) == Some(open_block));
                    let level = Level { block: open_block, items: sbuild };
                    assert(levels.push(level).drop_last() =~= levels);
                    assert forall|l: int| 0 <= l < levels.push(level).len() implies {
                        &&& brackets@.push(open_block)[l] == (#[trigger] levels.push(
                            level,
                        )[l]).block
                        &&& self@.all_live(stack@.push(build)[l]@)
                        &&& self@.terms(stack@.push(build)[l]@) == levels.push(level)[l].items
                        &&& atomic(levels.push(level)[l].items)
                    } by {
                        if l < levels.len() {
                            let lv = levels[l];
                        }
                    }
                    levels = levels.push(level);
                    sbuild = Seq::empty();
                }
                stack.push(build);
                brackets.push(open_block);
                build = Vec::new();
                proof {
                    assert(self@.terms(build@) =~= sbuild);
                }
            } else if close_block || close_arrow {
                proof {
                    assert(closes(token@) == Some(close_block));
                    assert(opens(token@) is None);
                }
                let kind = match brackets.pop() {
                    Some(kind) => kind,
                    None => {
                        return Err(Error::Syntax);
                    },
                };
                if kind != close_block {
                    proof {
                        let lv = levels[levels.len() - 1];
                    }
                    return Err(Error::Syntax);
                }
                let mut prev = match stack.pop() {
                    Some(prev) => prev,
                    None => {
                        return Err(Error::Syntax);
                    },
                };
                let ghost top = levels.last();
                proof {
                    lemma_chain_cost_atomic(sbuild);
                }
                let body = match self.new_chain(&build) {
                    Ok(p) => p,
                    Err(e) => {
                        proof {
                            lemma_extends_trans(h, before, self@);
                        }
                        return Err(e);
                    },
                };
                let ghost mid = self@;
                let made = if close_block {
                    self.new_block(body)
                } else {
                    self.new_arrow(body)
                };
                let inner = match made {
                    Ok(p) => p,
                    Err(e) => {
                        proof {
                            lemma_extends_trans(h, before, self@);
                        }
                        return Err(e);
                    },
                };
                proof {
                    lemma_extends_trans(before, mid, self@);
                    lemma_extends_trans(h, before, self@);
                    let lower = levels.drop_last();
                    assert forall|l: int| 0 <= l < lower.len() implies {
                        &&& brackets@[l] == (#[trigger] lower[l]).block
                        &&& before.all_live(stack@[l]@)
                        &&& before.terms(stack@[l]@) == lower[l].items
                        &&& atomic(lower[l].items)
                    } by {
                        let lv = levels[l];
                    }
                    lemma_holds_extends(before, self@, stack@, brackets@, lower);
                    lemma_extends_terms(before, self@, prev@);
                    lemma_terms_push(self@, prev@, inner);
                    assert(self@.term(inner) == wrap(top.block, sbuild));
                    lemma_atomic_push(top.items, wrap(top.block, sbuild));
                    levels = lower;
                    sbuild = top.items.push(wrap(top.block, sbuild));
                }
                prev.push(inner);
                build = prev;
            } else {
                proof {
                    assert(opens(token@) is None);
                    assert(closes(token@) is None);
                }
                let item = match self.new_atom(token, numerals) {
                    Ok(p) => p,
                    Err(e) => {
                        return Err(e);
                    },
                };
                proof {
                    lemma_extends_trans(h, before, self@);
                    lemma_holds_extends(before, self@, stack@, brackets@, levels);
                    lemma_extends_terms(before, self@, build@);
                    lemma_terms_push(self@, build@, item);
                    lemma_atomic_push(sbuild, atom(token@, numerals@));
                    sbuild = sbuild.push(atom(token@, numerals@));
                }
                build.push(item);
            }
            i += 1;
        }
        proof {
            assert(all.skip(i as int) =~= Seq::<Seq<char>>::empty());
        }
        if stack.len() > 0 {
            return Err(Error::Syntax);
        }
        let ghost before = self@;
        proof {
            lemma_chain_cost_atomic(sbuild);
        }
        let r = self.new_chain(&build);
        proof {
            lemma_extends_trans(h, before, self@);
        }
        r
    }
}

} // verus!
