use std::collections::VecDeque;
use vstd::prelude::*;
use crate::error::Error;
use crate::heap::Heap;
use crate::heap::HeapView;
use crate::heap::Object;
use crate::heap::Ptr;
use crate::heap::lemma_extends_terms;
use crate::heap::lemma_extends_trans;
use crate::heap::lemma_live_denotes;
use crate::library::Binding;
use crate::library::Library;
use crate::library::find;
use crate::library::lemma_find;
use crate::machine::Bindings;
use crate::machine::Machine;
use crate::machine::Scope;
use crate::machine::execute;
use crate::term::Opcode;
use crate::term::Term;

verus! {

/// A frame of the reducer as the references that it holds.
pub struct FrameView {
    pub con: Seq<Ptr>,
    pub env: Seq<Ptr>,
    pub err: Seq<Ptr>,
}

impl FrameView {
    /// A fresh frame that is to run `root`.
    pub open spec fn new(root: Ptr) -> FrameView {
        FrameView { con: seq![root], env: Seq::empty(), err: Seq::empty() }
    }

    /// Whether every reference of the frame is live in the heap.
    pub open spec fn fine(self, h: HeapView) -> bool {
        h.all_live(self.con) && h.all_live(self.env) && h.all_live(self.err)
    }

    /// The frame as the terms that its references denote in the heap.
    pub open spec fn scope(self, h: HeapView) -> Scope {
        Scope { con: h.terms(self.con), env: h.terms(self.env), err: h.terms(self.err) }
    }
}

/// A frame that is fine in a heap is fine in every heap that extends it,
/// and stands for the same terms.
pub proof fn lemma_frame_extends(old: HeapView, new: HeapView, f: FrameView)
    requires
        new.extends(old),
        f.fine(old),
    ensures
        f.fine(new),
        f.scope(new) == f.scope(old),
{
    lemma_extends_terms(old, new, f.con);
    lemma_extends_terms(old, new, f.env);
    lemma_extends_terms(old, new, f.err);
}

/// One frame of the reducer: the code that is still to run, the values,
/// and what got stuck.
pub struct Frame {
    pub(crate) con: VecDeque<Ptr>,
    pub(crate) env: Vec<Ptr>,
    pub(crate) err: Vec<Ptr>,
}

impl View for Frame {
    type V = FrameView;

    closed spec fn view(&self) -> FrameView {
        FrameView { con: self.con@, env: self.env@, err: self.err@ }
    }
}

/// What executing a combinator states of the frame and the heap before and
/// after it: the frame stands for what the machine prescribes, and the heap
/// has given the nodes that this costs; it fails for want of space alone.
pub open spec fn executed(
    old_heap: HeapView,
    before: FrameView,
    new_heap: HeapView,
    after: FrameView,
    nested: bool,
    opcode: Opcode,
    code: Ptr,
    r: Result<(), Error>,
) -> bool {
    let want = execute(before.scope(old_heap), nested, opcode, old_heap.term(code));
    match r {
        Ok(_) => after.fine(new_heap) && after.scope(new_heap) == want.0 && new_heap.vacant()
            + want.1 == old_heap.vacant(),
        Err(e) => e == Error::Space && old_heap.vacant() < want.1,
    }
}

/// Whether an error is one of the two that the heap raises under the
/// reducer.
pub open spec fn heap_error(e: Error) -> bool {
    e == Error::Null || e == Error::Space
}

impl Frame {
    /// A fresh frame that is to run `root`.
    pub fn new(root: Ptr) -> (r: Frame)
        ensures
            r@ == FrameView::new(root),
    {
        let mut con: VecDeque<Ptr> = VecDeque::new();
        con.push_back(root);
        let frame = Frame { con: con, env: Vec::new(), err: Vec::new() };
        proof {
            assert(frame@.con =~= seq![root]);
        }
        frame
    }

    /// Whether something got stuck in the frame.
    pub fn is_thunked(&self) -> (r: bool)
        ensures
            r == (self@.err.len() > 0),
    {
        self.err.len() > 0
    }

    /// Lets `root` get stuck: the values move behind what got stuck
    /// before, and `root` follows them.
    pub fn thunk(&mut self, root: Ptr)
        ensures
            final(self)@.con == old(self)@.con,
            final(self)@.env == Seq::<Ptr>::empty(),
            final(self)@.err == (old(self)@.err + old(self)@.env).push(root),
    {
        self.err.append(&mut self.env);
        self.err.push(root);
    }

    /// The references to what the frame has left behind: what got stuck,
    /// then the values.
    pub fn residue(&self) -> (r: Vec<Ptr>)
        ensures
            r@ == self@.err + self@.env,
    {
        let mut out: Vec<Ptr> = Vec::new();
        let mut i: usize = 0;
        while i < self.err.len()
            invariant
                i <= self.err@.len(),
                out@ == self.err@.take(i as int),
            decreases self.err@.len() - i,
        {
            out.push(self.err[i]);
            proof {
                assert(self.err@.take(i as int).push(self.err@[i as int]) =~= self.err@.take(
                    i + 1,
                ));
            }
            i += 1;
        }
        let mut j: usize = 0;
        proof {
            assert(self.err@.take(self.err@.len() as int) =~= self.err@);
            assert(out@ =~= self.err@ + self.env@.take(0));
        }
        while j < self.env.len()
            invariant
                j <= self.env@.len(),
                out@ == self.err@ + self.env@.take(j as int),
            decreases self.env@.len() - j,
        {
            out.push(self.env[j]);
            proof {
                assert((self.err@ + self.env@.take(j as int)).push(self.env@[j as int])
                    =~= self.err@ + self.env@.take(j + 1));
            }
            j += 1;
        }
        proof {
            assert(self.env@.take(self.env@.len() as int) =~= self.env@);
        }
        out
    }

    /// The references to the code that is still to run, the next first.
    pub fn code(&self) -> (r: Vec<Ptr>)
        ensures
            r@ == self@.con,
    {
        let mut out: Vec<Ptr> = Vec::new();
        let mut i: usize = 0;
        while i < self.con.len()
            invariant
                i <= self.con@.len(),
                out@ == self.con@.take(i as int),
            decreases self.con@.len() - i,
        {
            out.push(self.con[i]);
            proof {
                assert(self.con@.take(i as int).push(self.con@[i as int]) =~= self.con@.take(
                    i + 1,
                ));
            }
            i += 1;
        }
        proof {
            assert(self.con@.take(self.con@.len() as int) =~= self.con@);
        }
        out
    }
}


/// The terms of references joined are the terms of each, joined.
pub proof fn lemma_terms_add(h: HeapView, a: Seq<Ptr>, b: Seq<Ptr>)
    ensures
        h.terms(a + b) == h.terms(a) + h.terms(b),
        h.all_live(a) && h.all_live(b) ==> h.all_live(a + b),
{
    assert(h.terms(a + b) =~= h.terms(a) + h.terms(b));
    if h.all_live(a) && h.all_live(b) {
        assert forall|k: int| 0 <= k < (a + b).len() implies h.live(#[trigger] (a + b)[k]) by {
            if k < a.len() {
                assert(h.live(a[k]));
            } else {
                assert(h.live(b[k - a.len()]));
            }
        }
    }
}

/// The terms of a part of the references are that part of the terms.
pub proof fn lemma_terms_sub(h: HeapView, a: Seq<Ptr>, from: int, to: int)
    requires
        0 <= from <= to <= a.len(),
    ensures
        h.terms(a.subrange(from, to)) == h.terms(a).subrange(from, to),
        h.all_live(a) ==> h.all_live(a.subrange(from, to)),
{
    assert(h.terms(a.subrange(from, to)) =~= h.terms(a).subrange(from, to));
    if h.all_live(a) {
        assert forall|k: int| 0 <= k < a.subrange(from, to).len() implies h.live(
            #[trigger] a.subrange(from, to)[k],
        ) by {
            assert(h.live(a[k + from]));
        }
    }
}

impl Frame {
    /// The body of the block on top of the values, if a block is on top.
    fn top_block(&self, heap: &Heap) -> (r: Result<Option<Ptr>, Error>)
        requires
            heap@.wf(),
        ensures
            match r {
                Ok(Some(body)) => {
                    &&& self@.env.len() >= 1
                    &&& heap@.live(self@.env.last())
                    &&& heap@.live(body)
                    &&& heap@.term(self@.env.last()) == Term::block(heap@.term(body))
                },
                Ok(None) => self@.env.len() == 0 || (heap@.live(self@.env.last()) && !(heap@.term(
                    self@.env.last(),
                ) is Block)),
                Err(e) => e == Error::Null && self@.env.len() >= 1 && !heap@.live(
                    self@.env.last(),
                ),
            },
    {
        let n = self.env.len();
        if n == 0 {
            return Ok(None);
        }
        let top = self.env[n - 1];
        proof {
            lemma_live_denotes(heap@, top);
        }
        match heap.get_ref(top) {
            Ok(object) => match object {
                Object::Block(body) => {
                    proof {
                        lemma_live_denotes(heap@, *body);
                    }
                    Ok(Some(*body))
                },
                _ => Ok(None),
            },
            Err(e) => Err(e),
        }
    }

    /// The body of the block below the top of the values, if a block is
    /// there.
    fn second_block(&self, heap: &Heap) -> (r: Result<Option<Ptr>, Error>)
        requires
            heap@.wf(),
        ensures
            match r {
                Ok(Some(body)) => {
                    &&& self@.env.len() >= 2
                    &&& heap@.live(self@.env[self@.env.len() - 2])
                    &&& heap@.live(body)
                    &&& heap@.term(self@.env[self@.env.len() - 2]) == Term::block(
                        heap@.term(body),
                    )
                },
                Ok(None) => self@.env.len() < 2 || (heap@.live(self@.env[self@.env.len() - 2])
                    && !(heap@.term(self@.env[self@.env.len() - 2]) is Block)),
                Err(e) => e == Error::Null && self@.env.len() >= 2 && !heap@.live(
                    self@.env[self@.env.len() - 2],
                ),
            },
    {
        let n = self.env.len();
        if n < 2 {
            return Ok(None);
        }
        let second = self.env[n - 2];
        proof {
            lemma_live_denotes(heap@, second);
        }
        match heap.get_ref(second) {
            Ok(object) => match object {
                Object::Block(body) => {
                    proof {
                        lemma_live_denotes(heap@, *body);
                    }
                    Ok(Some(*body))
                },
                _ => Ok(None),
            },
            Err(e) => Err(e),
        }
    }

    fn op_app(&mut self, heap: &Heap, code: Ptr) -> (r: Result<(), Error>)
        requires
            heap@.wf(),
        ensures
            r is Err ==> heap_error(r->Err_0),
            old(self)@.fine(heap@) && heap@.live(code) ==> executed(
                heap@,
                old(self)@,
                heap@,
                final(self)@,
                false,
                Opcode::App,
                code,
                r,
            ),
    {
        let ghost h = heap@;
        let ghost f = self@;
        proof {
            if f.fine(h) && f.env.len() >= 1 {
                assert(h.live(f.env[f.env.len() - 1]));
            }
        }
        match self.top_block(heap) {
            Ok(Some(body)) => {
                self.env.pop();
                self.con.push_front(body);
                proof {
                    if f.fine(h) && h.live(code) {
                        lemma_terms_sub(h, f.env, 0, f.env.len() - 1);
                        lemma_terms_add(h, seq![body], f.con);
                        assert(h.terms(seq![body]) =~= seq![h.term(body)]);
                        assert(h.all_live(seq![body]));
                    }
                }
                Ok(())
            },
            Ok(None) => {
                self.thunk(code);
                proof {
                    if f.fine(h) && h.live(code) {
                        lemma_thunked(h, f, self@, code);
                    }
                }
                Ok(())
            },
            Err(e) => Err(e),
        }
    }

    fn op_copy(&mut self, heap: &Heap, code: Ptr) -> (r: Result<(), Error>)
        requires
            heap@.wf(),
        ensures
            r is Err ==> heap_error(r->Err_0),
            old(self)@.fine(heap@) && heap@.live(code) ==> executed(
                heap@,
                old(self)@,
                heap@,
                final(self)@,
                false,
                Opcode::Copy,
                code,
                r,
            ),
    {
        let ghost h = heap@;
        let ghost f = self@;
        let n = self.env.len();
        if n >= 1 {
            let top = self.env[n - 1];
            self.env.push(top);
            proof {
                if f.fine(h) && h.live(code) {
                    assert(h.live(f.env[n - 1]));
                    crate::heap::lemma_terms_push(h, f.env, top);
                }
            }
        } else {
            self.thunk(code);
            proof {
                if f.fine(h) && h.live(code) {
                    lemma_thunked(h, f, self@, code);
                }
            }
        }
        Ok(())
    }

    fn op_drop(&mut self, heap: &Heap, code: Ptr) -> (r: Result<(), Error>)
        requires
            heap@.wf(),
        ensures
            r is Err ==> heap_error(r->Err_0),
            old(self)@.fine(heap@) && heap@.live(code) ==> executed(
                heap@,
                old(self)@,
                heap@,
                final(self)@,
                false,
                Opcode::Drop,
                code,
                r,
            ),
    {
        let ghost h = heap@;
        let ghost f = self@;
        let n = self.env.len();
        if n >= 1 {
            self.env.pop();
            proof {
                if f.fine(h) && h.live(code) {
                    lemma_terms_sub(h, f.env, 0, n - 1);
                }
            }
        } else {
            self.thunk(code);
            proof {
                if f.fine(h) && h.live(code) {
                    lemma_thunked(h, f, self@, code);
                }
            }
        }
        Ok(())
    }

    fn op_swap(&mut self, heap: &Heap, code: Ptr) -> (r: Result<(), Error>)
        requires
            heap@.wf(),
        ensures
            r is Err ==> heap_error(r->Err_0),
            old(self)@.fine(heap@) && heap@.live(code) ==> executed(
                heap@,
                old(self)@,
                heap@,
                final(self)@,
                false,
                Opcode::Swap,
                code,
                r,
            ),
    {
        let ghost h = heap@;
        let ghost f = self@;
        let n = self.env.len();
        if n >= 2 {
            let fst = self.env[n - 1];
            let snd = self.env[n - 2];
            self.env.pop();
            self.env.pop();
            self.env.push(fst);
            self.env.push(snd);
            proof {
                if f.fine(h) && h.live(code) {
                    assert(h.live(f.env[n - 1]));
                    assert(h.live(f.env[n - 2]));
                    lemma_terms_sub(h, f.env, 0, n - 2);
                    assert(self@.env =~= f.env.subrange(0, n - 2).push(fst).push(snd));
                    crate::heap::lemma_terms_push(h, f.env.subrange(0, n - 2), fst);
                    crate::heap::lemma_terms_push(h, f.env.subrange(0, n - 2).push(fst), snd);
                }
            }
        } else {
            self.thunk(code);
            proof {
                if f.fine(h) && h.live(code) {
                    lemma_thunked(h, f, self@, code);
                }
            }
        }
        Ok(())
    }

    fn op_box(&mut self, heap: &mut Heap, code: Ptr) -> (r: Result<(), Error>)
        requires
            old(heap)@.wf(),
        ensures
            final(heap)@.wf(),
            final(heap)@.extends(old(heap)@),
            r is Err ==> heap_error(r->Err_0),
            old(self)@.fine(old(heap)@) && old(heap)@.live(code) ==> executed(
                old(heap)@,
                old(self)@,
                final(heap)@,
                final(self)@,
                false,
                Opcode::Box,
                code,
                r,
            ),
    {
        let ghost h = heap@;
        let ghost f = self@;
        let n = self.env.len();
        if n >= 1 {
            let top = self.env[n - 1];
            self.env.pop();
            let made = match heap.new_block(top) {
                Ok(p) => p,
                Err(e) => {
                    proof {
                        if f.fine(h) {
                            assert(h.live(f.env[n - 1]));
                        }
                    }
                    return Err(e);
                },
            };
            self.env.push(made);
            proof {
                if f.fine(h) && h.live(code) {
                    let below = f.env.subrange(0, n - 1);
                    lemma_terms_sub(h, f.env, 0, n - 1);
                    lemma_frame_extends(h, heap@, f);
                    lemma_extends_terms(h, heap@, below);
                    crate::heap::lemma_terms_push(heap@, below, made);
                }
            }
        } else {
            self.thunk(code);
            proof {
                if f.fine(h) && h.live(code) {
                    lemma_thunked(h, f, self@, code);
                }
            }
        }
        Ok(())
    }

    fn op_cat(&mut self, heap: &mut Heap, code: Ptr) -> (r: Result<(), Error>)
        requires
            old(heap)@.wf(),
        ensures
            final(heap)@.wf(),
            final(heap)@.extends(old(heap)@),
            r is Err ==> heap_error(r->Err_0),
            old(self)@.fine(old(heap)@) && old(heap)@.live(code) ==> executed(
                old(heap)@,
                old(self)@,
                final(heap)@,
                final(self)@,
                false,
                Opcode::Cat,
                code,
                r,
            ),
    {
        let ghost h = heap@;
        let ghost f = self@;
        let n = self.env.len();
        proof {
            if f.fine(h) && n >= 2 {
                assert(h.live(f.env[n - 1]));
                assert(h.live(f.env[n - 2]));
            }
        }
        let rhs = match self.top_block(heap) {
            Ok(x) => x,
            Err(e) => {
                return Err(e);
            },
        };
        let lhs = match self.second_block(heap) {
            Ok(x) => x,
            Err(e) => {
                return Err(e);
            },
        };
        match (lhs, rhs) {
            (Some(lhs_body), Some(rhs_body)) => {
                self.env.pop();
                self.env.pop();
                let body = match heap.new_sequence(lhs_body, rhs_body) {
                    Ok(p) => p,
                    Err(e) => {
                        return Err(e);
                    },
                };
                let ghost mid = heap@;
                let made = match heap.new_block(body) {
                    Ok(p) => p,
                    Err(e) => {
                        proof {
                            lemma_extends_trans(h, mid, heap@);
                        }
                        return Err(e);
                    },
                };
                self.env.push(made);
                proof {
                    lemma_extends_trans(h, mid, heap@);
                    if f.fine(h) && h.live(code) {
                        let below = f.env.subrange(0, n - 2);
                        assert(self@.env =~= below.push(made));
                        lemma_terms_sub(h, f.env, 0, n - 2);
                        lemma_frame_extends(h, heap@, f);
                        lemma_extends_terms(h, heap@, below);
                        crate::heap::lemma_terms_push(heap@, below, made);
                    }
                }
            },
            _ => {
                self.thunk(code);
                proof {
                    if f.fine(h) && h.live(code) {
                        lemma_thunked(h, f, self@, code);
                    }
                }
            },
        }
        Ok(())
    }

    fn op_fix(&mut self, heap: &mut Heap, code: Ptr) -> (r: Result<(), Error>)
        requires
            old(heap)@.wf(),
        ensures
            final(heap)@.wf(),
            final(heap)@.extends(old(heap)@),
            r is Err ==> heap_error(r->Err_0),
            old(self)@.fine(old(heap)@) && old(heap)@.live(code) && old(heap)@.term(code)
                is Opcode ==> executed(
                old(heap)@,
                old(self)@,
                final(heap)@,
                final(self)@,
                false,
                Opcode::Fix,
                code,
                r,
            ),
    {
        let ghost h = heap@;
        let ghost f = self@;
        let n = self.env.len();
        proof {
            if f.fine(h) && n >= 1 {
                assert(h.live(f.env[n - 1]));
            }
        }
        let found = match self.top_block(heap) {
            Ok(x) => x,
            Err(e) => {
                return Err(e);
            },
        };
        match found {
            Some(source_body) => {
                let source = self.env[n - 1];
                self.env.pop();
                proof {
                    if h.live(code) && h.term(code) is Opcode {
                        let a = h.term(source);
                        let b = h.term(code);
                        assert(crate::term::atoms(a) == 1);
                        assert(crate::term::atoms(b) == 1);
                        assert(crate::term::cat(a, b) == Term::pair(a, b));
                        assert(crate::term::atoms(Term::pair(a, b)) == crate::term::atoms(a)
                            + crate::term::atoms(b));
                    }
                }
                let fixed = match heap.new_sequence(source, code) {
                    Ok(p) => p,
                    Err(e) => {
                        return Err(e);
                    },
                };
                let ghost mid = heap@;
                let target_body = match heap.new_sequence(fixed, source_body) {
                    Ok(p) => p,
                    Err(e) => {
                        proof {
                            lemma_extends_trans(h, mid, heap@);
                        }
                        return Err(e);
                    },
                };
                let ghost late = heap@;
                proof {
                    lemma_extends_trans(h, mid, late);
                }
                let made = match heap.new_block(target_body) {
                    Ok(p) => p,
                    Err(e) => {
                        proof {
                            lemma_extends_trans(h, late, heap@);
                        }
                        return Err(e);
                    },
                };
                self.env.push(made);
                proof {
                    lemma_extends_trans(h, late, heap@);
                    if f.fine(h) && h.live(code) && h.term(code) is Opcode {
                        let below = f.env.subrange(0, n - 1);
                        assert(self@.env =~= below.push(made));
                        lemma_terms_sub(h, f.env, 0, n - 1);
                        lemma_frame_extends(h, heap@, f);
                        lemma_extends_terms(h, heap@, below);
                        crate::heap::lemma_terms_push(heap@, below, made);
                    }
                }
            },
            None => {
                self.thunk(code);
                proof {
                    if f.fine(h) && h.live(code) {
                        lemma_thunked(h, f, self@, code);
                    }
                }
            },
        }
        Ok(())
    }

    fn op_run(&mut self, heap: &mut Heap, code: Ptr) -> (r: Result<(), Error>)
        requires
            old(heap)@.wf(),
        ensures
            final(heap)@.wf(),
            final(heap)@.extends(old(heap)@),
            r is Err ==> heap_error(r->Err_0),
            old(self)@.fine(old(heap)@) && old(heap)@.live(code) ==> executed(
                old(heap)@,
                old(self)@,
                final(heap)@,
                final(self)@,
                false,
                Opcode::Run,
                code,
                r,
            ),
    {
        let ghost h = heap@;
        let ghost f = self@;
        let n = self.env.len();
        proof {
            if f.fine(h) && n >= 1 {
                assert(h.live(f.env[n - 1]));
            }
        }
        let found = match self.top_block(heap) {
            Ok(x) => x,
            Err(e) => {
                return Err(e);
            },
        };
        match found {
            Some(source_body) => {
                self.env.pop();
                let target = match heap.new_arrow(source_body) {
                    Ok(p) => p,
                    Err(e) => {
                        return Err(e);
                    },
                };
                self.con.push_front(target);
                proof {
                    if f.fine(h) && h.live(code) {
                        lemma_terms_sub(h, f.env, 0, n - 1);
                        lemma_frame_extends(h, heap@, f);
                        lemma_extends_terms(h, heap@, f.env.subrange(0, n - 1));
                        lemma_terms_add(heap@, seq![target], f.con);
                        assert(heap@.terms(seq![target]) =~= seq![heap@.term(target)]);
                        assert(heap@.all_live(seq![target]));
                    }
                }
            },
            None => {
                self.thunk(code);
                proof {
                    if f.fine(h) && h.live(code) {
                        lemma_thunked(h, f, self@, code);
                    }
                }
            },
        }
        Ok(())
    }

    fn op_shift(&mut self, heap: &mut Heap, nested: bool, code: Ptr) -> (r: Result<(), Error>)
        requires
            old(heap)@.wf(),
        ensures
            final(heap)@.wf(),
            final(heap)@.extends(old(heap)@),
            r is Err ==> heap_error(r->Err_0),
            old(self)@.fine(old(heap)@) && old(heap)@.live(code) ==> executed(
                old(heap)@,
                old(self)@,
                final(heap)@,
                final(self)@,
                nested,
                Opcode::Shift,
                code,
                r,
            ),
    {
        let ghost h = heap@;
        let ghost f = self@;
        let n = self.env.len();
        proof {
            if f.fine(h) && n >= 1 {
                assert(h.live(f.env[n - 1]));
            }
        }
        let found = match self.top_block(heap) {
            Ok(x) => x,
            Err(e) => {
                return Err(e);
            },
        };
        match found {
            Some(callback_body) => {
                if !nested {
                    self.thunk(code);
                    proof {
                        if f.fine(h) && h.live(code) {
                            lemma_thunked(h, f, self@, code);
                        }
                    }
                    return Ok(());
                }
                self.env.pop();
                let ghost rest = self@;
                proof {
                    if f.fine(h) {
                        lemma_terms_sub(h, f.env, 0, n - 1);
                        lemma_terms_add(h, rest.err, rest.env);
                    }
                }
                let left = self.residue();
                let cont = self.code();
                let env_body = match heap.new_chain(&left) {
                    Ok(p) => p,
                    Err(e) => {
                        return Err(e);
                    },
                };
                let ghost h1 = heap@;
                proof {
                    if f.fine(h) {
                        lemma_extends_terms(h, h1, rest.con);
                    }
                }
                let con_body = match heap.new_chain(&cont) {
                    Ok(p) => p,
                    Err(e) => {
                        proof {
                            lemma_extends_trans(h, h1, heap@);
                        }
                        return Err(e);
                    },
                };
                let ghost h2 = heap@;
                proof {
                    lemma_extends_trans(h, h1, h2);
                }
                let environment = match heap.new_block(env_body) {
                    Ok(p) => p,
                    Err(e) => {
                        proof {
                            lemma_extends_trans(h, h2, heap@);
                        }
                        return Err(e);
                    },
                };
                let ghost h3 = heap@;
                proof {
                    lemma_extends_trans(h, h2, h3);
                }
                let continuation = match heap.new_block(con_body) {
                    Ok(p) => p,
                    Err(e) => {
                        proof {
                            lemma_extends_trans(h, h3, heap@);
                        }
                        return Err(e);
                    },
                };
                self.env.clear();
                self.err.clear();
                self.con.clear();
                self.env.push(environment);
                self.env.push(continuation);
                self.con.push_front(callback_body);
                proof {
                    lemma_extends_trans(h, h3, heap@);
                    if f.fine(h) && h.live(code) {
                        let g = heap@;
                        assert(self@.env =~= seq![environment, continuation]);
                        assert(self@.con =~= seq![callback_body]);
                        assert(g.terms(self@.env) =~= seq![g.term(environment), g.term(continuation)]);
                        assert(g.terms(self@.con) =~= seq![g.term(callback_body)]);
                        assert(g.terms(self@.err) =~= Seq::<Term>::empty());
                        assert(h.live(callback_body));
                        assert(h3.live(environment));
                        assert(h2.live(env_body));
                    }
                }
            },
            None => {
                self.thunk(code);
                proof {
                    if f.fine(h) && h.live(code) {
                        lemma_thunked(h, f, self@, code);
                    }
                }
            },
        }
        Ok(())
    }

    /// Executes the combinator `opcode`, which was fetched as `code`.
    /// `nested` says whether a frame lies below this one.  A combinator
    /// that does not find what it needs gets stuck; the call fails only
    /// where the heap does.
    pub fn execute(&mut self, heap: &mut Heap, nested: bool, opcode: Opcode, code: Ptr) -> (r:
        Result<(), Error>)
        requires
            old(heap)@.wf(),
        ensures
            final(heap)@.wf(),
            final(heap)@.extends(old(heap)@),
            r is Err ==> heap_error(r->Err_0),
            old(self)@.fine(old(heap)@) && old(heap)@.live(code) && old(heap)@.term(code)
                is Opcode ==> executed(
                old(heap)@,
                old(self)@,
                final(heap)@,
                final(self)@,
                nested,
                opcode,
                code,
                r,
            ),
    {
        match opcode {
            Opcode::App => self.op_app(heap, code),
            Opcode::Box => self.op_box(heap, code),
            Opcode::Cat => self.op_cat(heap, code),
            Opcode::Copy => self.op_copy(heap, code),
            Opcode::Drop => self.op_drop(heap, code),
            Opcode::Swap => self.op_swap(heap, code),
            Opcode::Fix => self.op_fix(heap, code),
            Opcode::Run => self.op_run(heap, code),
            Opcode::Shift => self.op_shift(heap, nested, code),
        }
    }
}

/// The frame after a term got stuck in it stands for the stuck frame of
/// the machine.
pub proof fn lemma_thunked(h: HeapView, before: FrameView, after: FrameView, code: Ptr)
    requires
        before.fine(h),
        h.live(code),
        after.con == before.con,
        after.env == Seq::<Ptr>::empty(),
        after.err == (before.err + before.env).push(code),
    ensures
        after.fine(h),
        after.scope(h) == before.scope(h).thunk(h.term(code)),
{
    lemma_terms_add(h, before.err, before.env);
    crate::heap::lemma_terms_push(h, before.err + before.env, code);
    assert(h.terms(after.env) =~= Seq::<Term>::empty());
}


/// The reducer as the references that it holds: the active frame and the
/// frames below it, the innermost last.
pub struct ThreadView {
    pub frame: FrameView,
    pub stack: Seq<FrameView>,
}

impl ThreadView {
    /// A reducer that is to run `root`.
    pub open spec fn new(root: Ptr) -> ThreadView {
        ThreadView { frame: FrameView::new(root), stack: Seq::empty() }
    }

    /// Whether every reference that the reducer holds is live in the heap.
    pub open spec fn closed(self, h: HeapView) -> bool {
        &&& self.frame.fine(h)
        &&& forall|i: int| 0 <= i < self.stack.len() ==> (#[trigger] self.stack[i]).fine(h)
    }

    /// The machine that the reducer stands for in the heap.
    pub open spec fn machine(self, h: HeapView) -> Machine {
        Machine {
            frame: self.frame.scope(h),
            stack: Seq::new(self.stack.len(), |i: int| self.stack[i].scope(h)),
        }
    }

    /// The rank of the reference that is fetched next; zero where there is
    /// none.
    pub open spec fn front_rank(self, h: HeapView) -> nat {
        if self.frame.con.len() > 0 {
            h.rank(self.frame.con[0])
        } else {
            0
        }
    }
}

/// A reducer that is closed in a heap is closed in every heap that extends
/// it, and stands for the same machine.
pub proof fn lemma_thread_extends(old: HeapView, new: HeapView, t: ThreadView)
    requires
        new.extends(old),
        t.closed(old),
    ensures
        t.closed(new),
        t.machine(new) == t.machine(old),
{
    lemma_frame_extends(old, new, t.frame);
    assert forall|i: int| 0 <= i < t.stack.len() implies (#[trigger] t.stack[i]).fine(new)
        && t.stack[i].scope(new) == t.stack[i].scope(old) by {
        lemma_frame_extends(old, new, t.stack[i]);
    }
    assert(t.machine(new).stack =~= t.machine(old).stack);
}

/// The state of a reduction: a stack of frames, of which the last is
/// active.
pub struct Thread {
    pub(crate) frame: Frame,
    pub(crate) stack: Vec<Frame>,
}

impl View for Thread {
    type V = ThreadView;

    closed spec fn view(&self) -> ThreadView {
        ThreadView {
            frame: self.frame@,
            stack: Seq::new(self.stack@.len(), |i: int| self.stack@[i]@),
        }
    }
}

impl Thread {
    /// A reducer with one frame, which is to run `continuation`.
    pub fn with_continuation(continuation: Ptr) -> (r: Thread)
        ensures
            r@ == ThreadView::new(continuation),
    {
        let thread = Thread { frame: Frame::new(continuation), stack: Vec::new() };
        proof {
            assert(thread@.stack =~= Seq::<FrameView>::empty());
        }
        thread
    }

    /// Whether anything is left to run, or a frame left to close.
    pub fn has_continuation(&self) -> (r: bool)
        ensures
            r == (self@.frame.con.len() > 0 || self@.stack.len() > 0),
    {
        self.frame.con.len() > 0 || self.stack.len() > 0
    }

    /// Puts `data` before the code of the active frame: it is fetched
    /// next.
    pub fn push_continuation_front(&mut self, data: Ptr)
        ensures
            final(self)@.stack == old(self)@.stack,
            final(self)@.frame.env == old(self)@.frame.env,
            final(self)@.frame.err == old(self)@.frame.err,
            final(self)@.frame.con == seq![data] + old(self)@.frame.con,
    {
        self.frame.con.push_front(data);
        proof {
            assert(self@.stack =~= old(self)@.stack);
        }
    }

    /// Puts `data` behind the code of the active frame: it is fetched
    /// last.
    pub fn push_continuation_back(&mut self, data: Ptr)
        ensures
            final(self)@.stack == old(self)@.stack,
            final(self)@.frame.env == old(self)@.frame.env,
            final(self)@.frame.err == old(self)@.frame.err,
            final(self)@.frame.con == old(self)@.frame.con.push(data),
    {
        self.frame.con.push_back(data);
        proof {
            assert(self@.stack =~= old(self)@.stack);
        }
    }

    /// Whether the active frame holds a value.
    pub fn is_monadic(&self) -> (r: bool)
        ensures
            r == (self@.frame.env.len() >= 1),
    {
        self.frame.env.len() >= 1
    }

    /// Whether the active frame holds two values.
    pub fn is_dyadic(&self) -> (r: bool)
        ensures
            r == (self@.frame.env.len() >= 2),
    {
        self.frame.env.len() >= 2
    }

    /// Puts `data` on top of the values of the active frame.
    pub fn push_environment(&mut self, data: Ptr)
        ensures
            final(self)@.stack == old(self)@.stack,
            final(self)@.frame.con == old(self)@.frame.con,
            final(self)@.frame.err == old(self)@.frame.err,
            final(self)@.frame.env == old(self)@.frame.env.push(data),
    {
        self.frame.env.push(data);
        proof {
            assert(self@.stack =~= old(self)@.stack);
        }
    }

    /// Takes the value on top of the active frame.  Fails with `Underflow`
    /// exactly when the frame holds no value.
    pub fn pop_environment(&mut self) -> (r: Result<Ptr, Error>)
        ensures
            final(self)@.stack == old(self)@.stack,
            final(self)@.frame.con == old(self)@.frame.con,
            final(self)@.frame.err == old(self)@.frame.err,
            match r {
                Ok(p) => old(self)@.frame.env.len() > 0 && p == old(self)@.frame.env.last()
                    && final(self)@.frame.env == old(self)@.frame.env.drop_last(),
                Err(e) => e == Error::Underflow && old(self)@.frame.env.len() == 0 && final(self)@.frame.env == old(self)@.frame.env,
            },
    {
        let r = self.frame.env.pop();
        proof {
            assert(self@.stack =~= old(self)@.stack);
        }
        match r {
            Some(p) => Ok(p),
            None => Err(Error::Underflow),
        }
    }

    /// The value on top of the active frame.  Fails with `Underflow`
    /// exactly when the frame holds no value.
    pub fn peek_environment(&mut self) -> (r: Result<Ptr, Error>)
        ensures
            final(self)@ == old(self)@,
            match r {
                Ok(p) => old(self)@.frame.env.len() > 0 && p == old(self)@.frame.env.last(),
                Err(e) => e == Error::Underflow && old(self)@.frame.env.len() == 0,
            },
    {
        let n = self.frame.env.len();
        if n == 0 {
            Err(Error::Underflow)
        } else {
            Ok(self.frame.env[n - 1])
        }
    }

    /// Opens a frame that is to run `root`; the frame that was active
    /// waits below it.
    pub fn push_frame(&mut self, root: Ptr)
        ensures
            final(self)@.frame == FrameView::new(root),
            final(self)@.stack == old(self)@.stack.push(old(self)@.frame),
    {
        let mut fresh = Frame::new(root);
        core::mem::swap(&mut self.frame, &mut fresh);
        self.stack.push(fresh);
        proof {
            assert(self@.stack =~= old(self)@.stack.push(old(self)@.frame));
        }
    }

    /// Lets `root` get stuck in the active frame: its values move behind
    /// what got stuck before, and `root` follows them.
    pub fn thunk(&mut self, root: Ptr)
        ensures
            final(self)@.stack == old(self)@.stack,
            final(self)@.frame.con == old(self)@.frame.con,
            final(self)@.frame.env == Seq::<Ptr>::empty(),
            final(self)@.frame.err == (old(self)@.frame.err + old(self)@.frame.env).push(root),
    {
        self.frame.thunk(root);
        proof {
            assert(self@.stack =~= old(self)@.stack);
        }
    }

    /// Builds the chain of what the active frame has left behind, what got
    /// stuck before the values, and empties both.  A failed call leaves the
    /// reducer as it was.  It fails with `Null` exactly when one of these
    /// references is stale, and otherwise with `Space` exactly when the heap
    /// has fewer vacant slots than the chain costs.
    pub fn get_environment(&mut self, heap: &mut Heap) -> (r: Result<Ptr, Error>)
        requires
            old(heap)@.wf(),
        ensures
            final(heap)@.wf(),
            final(heap)@.extends(old(heap)@),
            final(self)@.stack == old(self)@.stack,
            final(self)@.frame.con == old(self)@.frame.con,
            match r {
                Ok(p) => {
                    &&& old(heap)@.all_live(old(self)@.frame.err + old(self)@.frame.env)
                    &&& final(heap)@.live(p)
                    &&& final(heap)@.term(p) == crate::term::chain(
                        old(heap)@.terms(old(self)@.frame.err + old(self)@.frame.env),
                    )
                    &&& final(heap)@.vacant() + crate::term::chain_cost(
                        old(heap)@.terms(old(self)@.frame.err + old(self)@.frame.env),
                    ) == old(heap)@.vacant()
                    &&& final(self)@.frame.env == Seq::<Ptr>::empty()
                    &&& final(self)@.frame.err == Seq::<Ptr>::empty()
                },
                Err(e) => {
                    &&& final(self)@ == old(self)@
                    &&& if old(heap)@.all_live(old(self)@.frame.err + old(self)@.frame.env) {
                        e == Error::Space && old(heap)@.vacant() < crate::term::chain_cost(
                            old(heap)@.terms(old(self)@.frame.err + old(self)@.frame.env),
                        )
                    } else {
                        e == Error::Null
                    }
                },
            },
    {
        let left = self.frame.residue();
        let made = match heap.new_chain(&left) {
            Ok(p) => p,
            Err(e) => {
                return Err(e);
            },
        };
        self.frame.env.clear();
        self.frame.err.clear();
        proof {
            assert(self@.stack =~= old(self)@.stack);
        }
        Ok(made)
    }

    /// Builds the chain of the code that the active frame has left, the
    /// next first, and empties it.  A failed call leaves the reducer as it
    /// was.  It fails with `Null` exactly when one of these references is
    /// stale, and otherwise with `Space` exactly when the heap has fewer
    /// vacant slots than the chain costs.
    pub fn get_continuation(&mut self, heap: &mut Heap) -> (r: Result<Ptr, Error>)
        requires
            old(heap)@.wf(),
        ensures
            final(heap)@.wf(),
            final(heap)@.extends(old(heap)@),
            final(self)@.stack == old(self)@.stack,
            final(self)@.frame.env == old(self)@.frame.env,
            final(self)@.frame.err == old(self)@.frame.err,
            match r {
                Ok(p) => {
                    &&& old(heap)@.all_live(old(self)@.frame.con)
                    &&& final(heap)@.live(p)
                    &&& final(heap)@.term(p) == crate::term::chain(
                        old(heap)@.terms(old(self)@.frame.con),
                    )
                    &&& final(heap)@.vacant() + crate::term::chain_cost(
                        old(heap)@.terms(old(self)@.frame.con),
                    ) == old(heap)@.vacant()
                    &&& final(self)@.frame.con == Seq::<Ptr>::empty()
                },
                Err(e) => {
                    &&& final(self)@ == old(self)@
                    &&& if old(heap)@.all_live(old(self)@.frame.con) {
                        e == Error::Space && old(heap)@.vacant() < crate::term::chain_cost(
                            old(heap)@.terms(old(self)@.frame.con),
                        )
                    } else {
                        e == Error::Null
                    }
                },
            },
    {
        let cont = self.frame.code();
        let made = match heap.new_chain(&cont) {
            Ok(p) => p,
            Err(e) => {
                return Err(e);
            },
        };
        self.frame.con.clear();
        proof {
            assert(self@.stack =~= old(self)@.stack);
        }
        Ok(made)
    }
}


/// Whether every value of the dictionary is live in the heap.
pub open spec fn library_closed(h: HeapView, library: Seq<Binding>) -> bool {
    forall|i: int| 0 <= i < library.len() ==> h.live((#[trigger] library[i]).value)
}

/// The dictionary as the terms that its values denote in the heap.
pub open spec fn bindings_of(h: HeapView, library: Seq<Binding>) -> Bindings {
    Map::new(
        |name: Seq<char>| find(library, name) is Some,
        |name: Seq<char>| h.term(find(library, name)->0),
    )
}

/// A dictionary that is closed in a heap is closed in every heap that
/// extends it, and stands for the same bindings.
pub proof fn lemma_library_extends(old: HeapView, new: HeapView, library: Seq<Binding>)
    requires
        new.extends(old),
        library_closed(old, library),
    ensures
        library_closed(new, library),
        bindings_of(new, library) == bindings_of(old, library),
{
    assert forall|i: int| 0 <= i < library.len() implies new.live(
        (#[trigger] library[i]).value,
    ) by {
        assert(old.live(library[i].value));
    }
    assert forall|name: Seq<char>| find(library, name) is Some implies new.term(
        find(library, name)->0,
    ) == old.term(find(library, name)->0) by {
        lemma_find(library, name);
        let v = find(library, name)->0;
        let i = choose|i: int|
            0 <= i < library.len() && (#[trigger] library[i]).name == name && library[i].value == v;
        assert(old.live(library[i].value));
    }
    assert(bindings_of(new, library) =~= bindings_of(old, library));
}

/// What a fetched term asks the reducer to do.
enum Action {
    Skip,
    Value,
    Scope(Ptr),
    Word(String),
    Opcode(Opcode),
}

impl Thread {
    /// Closes the active frame, which must not be the last.
    fn leave(&mut self, heap: &mut Heap) -> (r: Result<(), Error>)
        requires
            old(heap)@.wf(),
            old(self)@.stack.len() > 0,
        ensures
            final(heap)@.wf(),
            final(heap)@.extends(old(heap)@),
            r is Err ==> heap_error(r->Err_0),
            r is Ok ==> final(self)@.stack.len() == old(self)@.stack.len() - 1,
            old(self)@.closed(old(heap)@) ==> match r {
                Ok(_) => {
                    &&& final(self)@.closed(final(heap)@)
                    &&& final(self)@.machine(final(heap)@) == old(self)@.machine(
                        old(heap)@,
                    ).leave()
                    &&& final(heap)@.vacant() + old(self)@.machine(old(heap)@).leave_cost()
                        == old(heap)@.vacant()
                },
                Err(e) => e == Error::Space && old(heap)@.vacant() < old(self)@.machine(
                    old(heap)@,
                ).leave_cost(),
            },
    {
        let ghost h = heap@;
        let ghost t = self@;
        let ghost m = t.machine(h);
        let mut previous = match self.stack.pop() {
            Some(frame) => frame,
            None => {
                return Err(Error::Null);
            },
        };
        let ghost parent = previous@;
        let ghost child = self.frame@;
        proof {
            assert(self@.stack =~= t.stack.drop_last());
            assert(parent == t.stack.last());
            assert(m.stack.last() == parent.scope(h));
            assert(m.stack.drop_last() =~= self@.machine(h).stack);
            lemma_terms_add(h, child.err, child.env);
            lemma_terms_add(h, parent.env, child.env);
            if t.closed(h) {
                assert(t.stack[t.stack.len() - 1].fine(h));
                assert forall|i: int| 0 <= i < self@.stack.len() implies (
                #[trigger] self@.stack[i]).fine(h) by {
                    assert(t.stack[i].fine(h));
                }
            }
        }
        if self.frame.is_thunked() {
            let left = self.frame.residue();
            let body = match heap.new_chain(&left) {
                Ok(p) => p,
                Err(e) => {
                    return Err(e);
                },
            };
            let ghost mid = heap@;
            let arrow = match heap.new_arrow(body) {
                Ok(p) => p,
                Err(e) => {
                    proof {
                        lemma_extends_trans(h, mid, heap@);
                    }
                    return Err(e);
                },
            };
            core::mem::swap(&mut self.frame, &mut previous);
            let ghost before = self.frame@;
            self.frame.thunk(arrow);
            proof {
                lemma_extends_trans(h, mid, heap@);
                assert(self@.stack =~= t.stack.drop_last());
                if t.closed(h) {
                    lemma_frame_extends(h, heap@, parent);
                    lemma_thunked(heap@, parent, self.frame@, arrow);
                    let rest = ThreadView { frame: parent, stack: t.stack.drop_last() };
                    lemma_thread_extends(h, heap@, rest);
                    assert(self@.machine(heap@).stack =~= m.leave().stack);
                }
            }
            Ok(())
        } else {
            previous.env.append(&mut self.frame.env);
            core::mem::swap(&mut self.frame, &mut previous);
            proof {
                assert(self@.stack =~= t.stack.drop_last());
                if t.closed(h) {
                    assert(self@.machine(heap@).stack =~= m.leave().stack);
                }
            }
            Ok(())
        }
    }

    /// Fetches the reference to the term that is to be acted on next.
    /// Frames that have run out of code are closed on the way, and a
    /// sequence at the front of the code gives way to its two parts.
    /// Fails with `Underflow` when no code is left in any frame, and
    /// otherwise only where the heap fails.
    pub fn pop_continuation(&mut self, heap: &mut Heap) -> (r: Result<Ptr, Error>)
        requires
            old(heap)@.wf(),
        ensures
            final(heap)@.wf(),
            final(heap)@.extends(old(heap)@),
            r is Err ==> heap_error(r->Err_0) || r->Err_0 == Error::Underflow,
            old(self)@.frame.con.len() > 0 && !old(heap)@.live(old(self)@.frame.con[0]) ==> r
                == Err::<Ptr, Error>(Error::Null),
            old(self)@.closed(old(heap)@) ==> fetched(
                old(heap)@,
                old(self)@,
                final(heap)@,
                final(self)@,
                r,
            ),
    {
        let ghost h = heap@;
        let ghost t = self@;
        let ghost want = t.machine(h).fetch();
        loop
            invariant
                h == old(heap)@,
                t == old(self)@,
                want == t.machine(h).fetch(),
                heap@.wf(),
                heap@.extends(h),
                t.frame.con.len() > 0 && !h.live(t.frame.con[0]) ==> self@ == t && heap@ == h,
                t.closed(h) ==> {
                    &&& self@.closed(heap@)
                    &&& self@.machine(heap@).fetch().code == want.code
                    &&& self@.machine(heap@).fetch().machine == want.machine
                    &&& self@.machine(heap@).fetch().cost + h.vacant() == want.cost
                        + heap@.vacant()
                },
            decreases self@.stack.len(), self@.front_rank(heap@),
        {
            let ghost before = self@;
            let ghost g = heap@;
            if self.frame.con.len() == 0 {
                if self.stack.len() == 0 {
                    return Err(Error::Underflow);
                }
                match self.leave(heap) {
                    Ok(_) => {},
                    Err(e) => {
                        proof {
                            lemma_extends_trans(h, g, heap@);
                        }
                        return Err(e);
                    },
                }
                proof {
                    lemma_extends_trans(h, g, heap@);
                }
            } else {
                let code = match self.frame.con.pop_front() {
                    Some(p) => p,
                    None => {
                        return Err(Error::Null);
                    },
                };
                proof {
                    assert(self@.stack =~= before.stack);
                    assert(self@.frame.con =~= before.frame.con.drop_first());
                    lemma_live_denotes(g, code);
                    lemma_terms_sub(g, before.frame.con, 1, before.frame.con.len() as int);
                    if t.closed(h) {
                        assert(g.live(before.frame.con[0]));
                        assert(g.terms(before.frame.con)[0] == g.term(code));
                        assert(g.terms(before.frame.con).drop_first() =~= g.terms(
                            self@.frame.con,
                        ));
                        assert(self@.machine(g).stack =~= before.machine(g).stack);
                    }
                }
                let parts = match heap.get_ref(code) {
                    Ok(object) => match object {
                        Object::Sequence(fst, snd) => Some((*fst, *snd)),
                        _ => None,
                    },
                    Err(e) => {
                        return Err(e);
                    },
                };
                match parts {
                    Some((fst, snd)) => {
                        let ghost rest = self@.frame.con;
                        self.frame.con.push_front(snd);
                        self.frame.con.push_front(fst);
                        proof {
                            assert(self@.stack =~= before.stack);
                            assert(self@.frame.con =~= seq![fst, snd] + rest);
                            lemma_live_denotes(g, fst);
                            lemma_live_denotes(g, snd);
                            if t.closed(h) {
                                lemma_terms_add(g, seq![fst, snd], rest);
                                assert(g.terms(seq![fst, snd]) =~= seq![g.term(fst), g.term(snd)]);
                                assert(g.all_live(seq![fst, snd]));
                                assert(self@.machine(g).stack =~= before.machine(g).stack);
                                assert(self@.machine(g) == before.machine(g).with_frame(
                                    before.machine(g).frame.with_con(
                                        seq![g.term(fst), g.term(snd)] + g.terms(rest),
                                    ),
                                ));
                            }
                        }
                    },
                    None => {
                        return Ok(code);
                    },
                }
            }
        }
    }
}

/// What a fetch states of the reducer and the heap before and after it:
/// the reducer stands for the machine after the fetch, the reference that
/// is returned denotes the term that the machine fetches, and the heap has
/// given the nodes that this costs.  It ends in `Underflow` exactly when the
/// machine fetches nothing, and fails otherwise for want of space alone.
pub open spec fn fetched(
    old_heap: HeapView,
    before: ThreadView,
    new_heap: HeapView,
    after: ThreadView,
    r: Result<Ptr, Error>,
) -> bool {
    let want = before.machine(old_heap).fetch();
    match r {
        Ok(p) => {
            &&& after.closed(new_heap)
            &&& new_heap.live(p)
            &&& want.code == Some(new_heap.term(p))
            &&& after.machine(new_heap) == want.machine
            &&& new_heap.vacant() + want.cost == old_heap.vacant()
        },
        Err(e) => if e == Error::Underflow {
            &&& want.code is None
            &&& after.closed(new_heap)
            &&& after.machine(new_heap) == want.machine
            &&& new_heap.vacant() + want.cost == old_heap.vacant()
        } else {
            e == Error::Space && old_heap.vacant() < want.cost
        },
    }
}


/// What a step states of the reducer and the heap before and after it:
/// the reducer stands for the machine after the step, and the heap has
/// given the nodes that this costs; it fails for want of space alone.
pub open spec fn stepped(
    old_heap: HeapView,
    before: ThreadView,
    new_heap: HeapView,
    after: ThreadView,
    library: Seq<Binding>,
    r: Result<(), Error>,
) -> bool {
    let want = before.machine(old_heap).step(bindings_of(old_heap, library));
    match r {
        Ok(_) => {
            &&& after.closed(new_heap)
            &&& after.machine(new_heap) == want.machine
            &&& new_heap.vacant() + want.cost == old_heap.vacant()
        },
        Err(e) => e == Error::Space && old_heap.vacant() < want.cost,
    }
}

impl Thread {
    fn action(heap: &Heap, code: Ptr) -> (r: Result<Action, Error>)
        requires
            heap@.wf(),
        ensures
            match r {
                Ok(action) => heap@.live(code) && match action {
                    Action::Skip => heap@.term(code) is Id || heap@.term(code) is Hint
                        || heap@.term(code) is Sequence,
                    Action::Value => heap@.term(code) is Number || heap@.term(code) is Block,
                    Action::Scope(body) => heap@.live(body) && heap@.term(code) == Term::arrow(
                        heap@.term(body),
                    ),
                    Action::Word(name) => heap@.term(code) == Term::Word(name@),
                    Action::Opcode(opcode) => heap@.term(code) == Term::Opcode(opcode),
                },
                Err(e) => e == Error::Null && !heap@.live(code),
            },
    {
        proof {
            lemma_live_denotes(heap@, code);
        }
        match heap.get_ref(code) {
            Ok(object) => match object {
                Object::Id => Ok(Action::Skip),
                Object::Hint(_) => Ok(Action::Skip),
                Object::Sequence(_, _) => Ok(Action::Skip),
                Object::Number(_, _) => Ok(Action::Value),
                Object::Block(_) => Ok(Action::Value),
                Object::Arrow(body) => {
                    proof {
                        lemma_live_denotes(heap@, *body);
                    }
                    Ok(Action::Scope(*body))
                },
                Object::Word(name) => Ok(Action::Word(name.clone())),
                Object::Opcode(opcode) => Ok(Action::Opcode(*opcode)),
            },
            Err(e) => Err(e),
        }
    }

    /// Takes one step: fetches the next term and acts on it.  The empty
    /// program and a hint have no effect; a number and a block become
    /// values; a scope opens a frame; a word gives way to what the
    /// dictionary binds it to, or gets stuck; a combinator is executed, or
    /// gets stuck.  Where no code is left the step only closes frames.
    /// The call fails only where the heap does.
    pub fn step(&mut self, heap: &mut Heap, dictionary: &Library) -> (r: Result<(), Error>)
        requires
            old(heap)@.wf(),
            dictionary.wf(),
        ensures
            final(heap)@.wf(),
            final(heap)@.extends(old(heap)@),
            r is Err ==> heap_error(r->Err_0),
            old(self)@.frame.con.len() > 0 && !old(heap)@.live(old(self)@.frame.con[0]) ==> r
                == Err::<(), Error>(Error::Null),
            old(self)@.closed(old(heap)@) && library_closed(old(heap)@, dictionary@) ==> stepped(
                old(heap)@,
                old(self)@,
                final(heap)@,
                final(self)@,
                dictionary@,
                r,
            ),
    {
        let ghost h = heap@;
        let ghost t = self@;
        let ghost good = t.closed(h) && library_closed(h, dictionary@);
        let ghost bindings = bindings_of(h, dictionary@);
        let code = match self.pop_continuation(heap) {
            Ok(code) => code,
            Err(e) => {
                if e == Error::Underflow {
                    return Ok(());
                }
                return Err(e);
            },
        };
        let ghost g = heap@;
        let ghost u = self@;
        proof {
            if good {
                lemma_library_extends(h, g, dictionary@);
            }
        }
        let action = match Thread::action(heap, code) {
            Ok(action) => action,
            Err(e) => {
                return Err(e);
            },
        };
        match action {
            Action::Skip => Ok(()),
            Action::Value => {
                self.push_environment(code);
                proof {
                    if good {
                        crate::heap::lemma_terms_push(g, u.frame.env, code);
                        assert(self@.machine(g).stack =~= u.machine(g).stack);
                    }
                }
                Ok(())
            },
            Action::Scope(body) => {
                self.push_frame(body);
                proof {
                    if good {
                        assert(g.all_live(seq![body]));
                        assert(g.terms(seq![body]) =~= seq![g.term(body)]);
                        assert(g.terms(Seq::<Ptr>::empty()) =~= Seq::<Term>::empty());
                        assert forall|i: int| 0 <= i < self@.stack.len() implies (
                        #[trigger] self@.stack[i]).fine(g) by {
                            if i < u.stack.len() {
                                assert(u.stack[i].fine(g));
                            }
                        }
                        assert(self@.machine(g).stack =~= u.machine(g).stack.push(
                            u.machine(g).frame,
                        ));
                    }
                }
                Ok(())
            },
            Action::Word(name) => {
                match dictionary.get(name.as_str()) {
                    Some(binding) => {
                        self.push_continuation_front(binding);
                        proof {
                            if good {
                                lemma_find(dictionary@, name@);
                                lemma_terms_add(g, seq![binding], u.frame.con);
                                assert(g.all_live(seq![binding]));
                                assert(g.terms(seq![binding]) =~= seq![g.term(binding)]);
                                assert(self@.machine(g).stack =~= u.machine(g).stack);
                            }
                        }
                    },
                    None => {
                        self.thunk(code);
                        proof {
                            if good {
                                lemma_thunked(g, u.frame, self@.frame, code);
                                assert(self@.machine(g).stack =~= u.machine(g).stack);
                            }
                        }
                    },
                }
                Ok(())
            },
            Action::Opcode(opcode) => {
                let nested = self.stack.len() > 0;
                let r = self.frame.execute(heap, nested, opcode, code);
                proof {
                    lemma_extends_trans(h, g, heap@);
                    assert(self@.stack =~= u.stack);
                    if good && r is Ok {
                        let rest = ThreadView { frame: self@.frame, stack: u.stack };
                        assert forall|i: int| 0 <= i < u.stack.len() implies (
                        #[trigger] u.stack[i]).fine(heap@) && u.stack[i].scope(heap@)
                            == u.stack[i].scope(g) by {
                            lemma_frame_extends(g, heap@, u.stack[i]);
                        }
                        assert(self@.machine(heap@).stack =~= u.machine(g).stack);
                    }
                }
                r
            },
        }
    }
}

/// What a reduction states of the heap before and after it: the reference
/// that is returned denotes the result of the machine after the run, and
/// the heap has given the nodes that the run and the result cost; it fails
/// for want of space alone.
pub open spec fn reduced(
    old_heap: HeapView,
    continuation: Ptr,
    library: Seq<Binding>,
    quota: nat,
    new_heap: HeapView,
    r: Result<Ptr, Error>,
) -> bool {
    let bindings = bindings_of(old_heap, library);
    let start = Machine::new(old_heap.term(continuation));
    let end = start.run(bindings, quota);
    let cost = start.run_cost(bindings, quota) + end.result_cost();
    match r {
        Ok(p) => {
            &&& new_heap.live(p)
            &&& new_heap.term(p) == end.result()
            &&& new_heap.vacant() + cost == old_heap.vacant()
        },
        Err(e) => e == Error::Space && old_heap.vacant() < cost,
    }
}

/// Rewrites the term that `continuation` refers to, for at most
/// `time_quota` steps, and returns a reference to the term that stands for
/// the reducer afterwards: what the active frame has left behind, followed
/// by the code that it has left.  With a quota of zero that is the term
/// itself in normal form.
///
/// Where `continuation` and the values of the dictionary are live the call
/// fails for want of space alone; a stale reference makes it fail with
/// `Null` when the reducer comes to read it.
pub fn reduce(continuation: Ptr, heap: &mut Heap, dictionary: &Library, time_quota: u64) -> (r:
    Result<Ptr, Error>)
    requires
        old(heap)@.wf(),
        dictionary.wf(),
    ensures
        final(heap)@.wf(),
        final(heap)@.extends(old(heap)@),
        r is Err ==> heap_error(r->Err_0),
        r is Ok ==> final(heap)@.live(r->Ok_0),
        !old(heap)@.live(continuation) ==> r == Err::<Ptr, Error>(Error::Null),
        old(heap)@.live(continuation) && library_closed(old(heap)@, dictionary@) ==> reduced(
            old(heap)@,
            continuation,
            dictionary@,
            time_quota as nat,
            final(heap)@,
            r,
        ),
{
    let ghost h = heap@;
    let ghost good = h.live(continuation) && library_closed(h, dictionary@);
    let ghost bindings = bindings_of(h, dictionary@);
    let ghost start = Machine::new(h.term(continuation));
    let mut thread = Thread::with_continuation(continuation);
    let mut quota = time_quota;
    proof {
        if good {
            assert(h.all_live(seq![continuation]));
            assert(h.terms(seq![continuation]) =~= seq![h.term(continuation)]);
            assert(h.terms(Seq::<Ptr>::empty()) =~= Seq::<Term>::empty());
            assert(thread@.machine(h).stack =~= start.stack);
        }
    }
    while quota > 0 && thread.has_continuation()
        invariant
            h == old(heap)@,
            dictionary.wf(),
            heap@.wf(),
            heap@.extends(h),
            good == (h.live(continuation) && library_closed(h, dictionary@)),
            bindings == bindings_of(h, dictionary@),
            start == Machine::new(h.term(continuation)),
            quota <= time_quota,
            !h.live(continuation) ==> thread@ == ThreadView::new(continuation) && heap@ == h,
            good ==> {
                &&& thread@.closed(heap@)
                &&& library_closed(heap@, dictionary@)
                &&& bindings_of(heap@, dictionary@) == bindings
                &&& thread@.machine(heap@).run(bindings, quota as nat) == start.run(
                    bindings,
                    time_quota as nat,
                )
                &&& thread@.machine(heap@).run_cost(bindings, quota as nat) + h.vacant()
                    == start.run_cost(bindings, time_quota as nat) + heap@.vacant()
            },
        decreases quota,
    {
        let ghost g = heap@;
        quota = quota - 1;
        match thread.step(heap, dictionary) {
            Ok(_) => {},
            Err(e) => {
                proof {
                    lemma_extends_trans(h, g, heap@);
                }
                return Err(e);
            },
        }
        proof {
            lemma_extends_trans(h, g, heap@);
            if good {
                lemma_library_extends(g, heap@, dictionary@);
            }
        }
    }
    let ghost g = heap@;
    let ghost end = thread@.machine(g);
    proof {
        if good {
            assert(end == start.run(bindings, time_quota as nat));
            lemma_terms_add(g, thread@.frame.err, thread@.frame.env);
        }
    }
    if thread.has_continuation() {
        let tail = match thread.get_continuation(heap) {
            Ok(p) => p,
            Err(e) => {
                proof {
                    lemma_extends_trans(h, g, heap@);
                }
                return Err(e);
            },
        };
        let ghost g1 = heap@;
        proof {
            lemma_extends_trans(h, g, g1);
            if good {
                lemma_extends_terms(g, g1, thread@.frame.err + thread@.frame.env);
            }
        }
        let head = match thread.get_environment(heap) {
            Ok(p) => p,
            Err(e) => {
                proof {
                    lemma_extends_trans(h, g1, heap@);
                }
                return Err(e);
            },
        };
        let ghost g2 = heap@;
        proof {
            lemma_extends_trans(h, g1, g2);
        }
        let r = heap.new_sequence(head, tail);
        proof {
            lemma_extends_trans(h, g2, heap@);
        }
        r
    } else {
        let r = thread.get_environment(heap);
        proof {
            lemma_extends_trans(h, g, heap@);
        }
        r
    }
}

} // verus!
