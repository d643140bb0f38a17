use vstd::prelude::*;
use crate::error::Error;
use crate::term::Opcode;
use crate::term::Term;
use crate::term::atoms;
use crate::term::cat;

verus! {

/// A reference to a term in a heap: a slot and the generation in which the
/// slot was filled.
#[derive(Debug, Copy, Clone, Eq, PartialEq, Hash, Structural)]
pub struct Ptr {
    pub index: usize,
    pub generation: u64,
}

/// A node of the heap.
#[derive(Debug)]
pub enum Object {
    /// The empty program.
    Id,
    /// A number: its IEEE-754 bit pattern and its decimal text.
    Number(u64, String),
    /// A name.
    Word(String),
    /// An annotation.
    Hint(String),
    /// A primitive combinator.
    Opcode(Opcode),
    /// A quoted program.
    Block(Ptr),
    /// A scoped program.
    Arrow(Ptr),
    /// One program followed by another.
    Sequence(Ptr, Ptr),
}

/// A node as a mathematical value: the node with the texts that its strings
/// hold.
pub enum Shape {
    /// The empty program.
    Id,
    /// A number: its IEEE-754 bit pattern and its decimal text.
    Number(u64, Seq<char>),
    /// A name.
    Word(Seq<char>),
    /// An annotation.
    Hint(Seq<char>),
    /// A primitive combinator.
    Opcode(Opcode),
    /// A quoted program.
    Block(Ptr),
    /// A scoped program.
    Arrow(Ptr),
    /// One program followed by another.
    Sequence(Ptr, Ptr),
}

impl View for Object {
    type V = Shape;

    open spec fn view(&self) -> Shape {
        match self {
            Object::Id => Shape::Id,
            Object::Number(bits, text) => Shape::Number(*bits, text@),
            Object::Word(name) => Shape::Word(name@),
            Object::Hint(name) => Shape::Hint(name@),
            Object::Opcode(opcode) => Shape::Opcode(*opcode),
            Object::Block(body) => Shape::Block(*body),
            Object::Arrow(body) => Shape::Arrow(*body),
            Object::Sequence(fst, snd) => Shape::Sequence(*fst, *snd),
        }
    }
}

/// An occupied slot as a mathematical value.  The stamp orders the nodes by
/// the time of their allocation.
pub struct Cell {
    pub shape: Shape,
    pub generation: u64,
    pub stamp: nat,
}

/// Whether `p` refers to an occupied slot of its own generation.
pub open spec fn live(cells: Seq<Option<Cell>>, p: Ptr) -> bool {
    &&& p.index < cells.len()
    &&& cells[p.index as int] is Some
    &&& cells[p.index as int]->0.generation == p.generation
}

/// One more than the stamp of the node that `p` refers to; zero for a stale
/// reference.
pub open spec fn rank(cells: Seq<Option<Cell>>, p: Ptr) -> nat {
    if live(cells, p) {
        cells[p.index as int]->0.stamp + 1
    } else {
        0
    }
}

/// A child is live and older than its parent.
pub open spec fn child_ok(cells: Seq<Option<Cell>>, c: Ptr, stamp: nat) -> bool {
    live(cells, c) && cells[c.index as int]->0.stamp < stamp
}

/// Every child of slot `i` is live and older than the node in slot `i`.
pub open spec fn slot_ok(cells: Seq<Option<Cell>>, i: int) -> bool {
    match cells[i] {
        Some(cell) => match cell.shape {
            Shape::Block(c) => child_ok(cells, c, cell.stamp),
            Shape::Arrow(c) => child_ok(cells, c, cell.stamp),
            Shape::Sequence(a, b) => child_ok(cells, a, cell.stamp) && child_ok(
                cells,
                b,
                cell.stamp,
            ),
            _ => true,
        },
        None => true,
    }
}

/// The nodes form a directed acyclic graph without dangling edges.
pub open spec fn ordered(cells: Seq<Option<Cell>>) -> bool {
    forall|i: int| 0 <= i < cells.len() ==> #[trigger] slot_ok(cells, i)
}

/// The term that `p` denotes; `None` for a stale reference.
pub open spec fn term_of(cells: Seq<Option<Cell>>, p: Ptr) -> Option<Term>
    decreases rank(cells, p),
    when ordered(cells)
{
    if !live(cells, p) {
        None
    } else {
        proof {
            assert(slot_ok(cells, p.index as int));
        }
        match cells[p.index as int]->0.shape {
            Shape::Id => Some(Term::Id),
            Shape::Number(bits, text) => Some(Term::Number(bits, text)),
            Shape::Word(name) => Some(Term::Word(name)),
            Shape::Hint(name) => Some(Term::Hint(name)),
            Shape::Opcode(opcode) => Some(Term::Opcode(opcode)),
            Shape::Block(c) => Some(Term::block(term_of(cells, c)->0)),
            Shape::Arrow(c) => Some(Term::arrow(term_of(cells, c)->0)),
            Shape::Sequence(a, b) => Some(
                Term::pair(term_of(cells, a)->0, term_of(cells, b)->0),
            ),
        }
    }
}

/// The slots that can be reached from `p`, its own included.
pub open spec fn reach(cells: Seq<Option<Cell>>, p: Ptr) -> Set<int>
    decreases rank(cells, p),
    when ordered(cells)
{
    if !live(cells, p) {
        Set::empty()
    } else {
        proof {
            assert(slot_ok(cells, p.index as int));
        }
        match cells[p.index as int]->0.shape {
            Shape::Block(c) => reach(cells, c).insert(p.index as int),
            Shape::Arrow(c) => reach(cells, c).insert(p.index as int),
            Shape::Sequence(a, b) => reach(cells, a).union(reach(cells, b)).insert(
                p.index as int,
            ),
            _ => Set::empty().insert(p.index as int),
        }
    }
}

/// The number of vacant slots among the first `n`.
pub open spec fn vacant_upto(cells: Seq<Option<Cell>>, n: int) -> nat
    decreases n,
{
    if n <= 0 {
        0
    } else {
        vacant_upto(cells, n - 1) + if cells[n - 1] is None {
            1nat
        } else {
            0nat
        }
    }
}

/// The first vacant slot at or after `i`, or the number of slots.
pub open spec fn first_vacant_from(cells: Seq<Option<Cell>>, i: int) -> int
    decreases cells.len() - i,
{
    if i < 0 || i >= cells.len() {
        cells.len() as int
    } else if cells[i] is None {
        i
    } else {
        first_vacant_from(cells, i + 1)
    }
}

/// A heap as a mathematical value.
pub struct HeapView {
    /// The slots, vacant or occupied.
    pub cells: Seq<Option<Cell>>,
    /// The mark bit of each slot.
    pub marks: Seq<bool>,
    /// The generation in which new nodes are allocated.
    pub generation: u64,
    /// The stamp of the next node.
    pub clock: nat,
}

impl HeapView {
    /// Whether `p` is live in this heap.
    pub open spec fn live(self, p: Ptr) -> bool {
        live(self.cells, p)
    }

    /// The rank of `p` in this heap.
    pub open spec fn rank(self, p: Ptr) -> nat {
        rank(self.cells, p)
    }

    /// The node that a live `p` refers to.
    pub open spec fn shape(self, p: Ptr) -> Shape {
        self.cells[p.index as int]->0.shape
    }

    /// The term that `p` denotes in this heap.
    pub open spec fn term_of(self, p: Ptr) -> Option<Term> {
        term_of(self.cells, p)
    }

    /// The term that a live `p` denotes in this heap.
    pub open spec fn term(self, p: Ptr) -> Term {
        term_of(self.cells, p)->0
    }

    /// The slots that can be reached from `p`.
    pub open spec fn reach(self, p: Ptr) -> Set<int> {
        reach(self.cells, p)
    }

    /// The number of slots.
    pub open spec fn capacity(self) -> nat {
        self.cells.len()
    }

    /// The number of vacant slots.
    pub open spec fn vacant(self) -> nat {
        vacant_upto(self.cells, self.cells.len() as int)
    }

    /// The first vacant slot, or the number of slots.
    pub open spec fn first_vacant(self) -> int {
        first_vacant_from(self.cells, 0)
    }

    /// Whether slot `c` is marked.
    pub open spec fn marked(self, c: Ptr) -> bool {
        self.marks[c.index as int]
    }

    /// What holds of slot `i` beside the order of the graph: its node is not
    /// younger than the heap, a marked node has marked children, and a vacant
    /// slot is not marked.
    pub open spec fn slot_wf(self, i: int) -> bool {
        match self.cells[i] {
            Some(cell) => {
                &&& cell.generation <= self.generation
                &&& cell.stamp < self.clock
                &&& self.marks[i] ==> match cell.shape {
                    Shape::Block(c) => self.marked(c),
                    Shape::Arrow(c) => self.marked(c),
                    Shape::Sequence(a, b) => self.marked(a) && self.marked(b),
                    _ => true,
                }
            },
            None => !self.marks[i],
        }
    }

    /// The invariant of a heap.
    pub open spec fn wf(self) -> bool {
        &&& self.marks.len() == self.cells.len()
        &&& self.cells.len() <= usize::MAX
        &&& ordered(self.cells)
        &&& forall|i: int| 0 <= i < self.cells.len() ==> #[trigger] self.slot_wf(i)
    }

    /// Whether no slot is marked: the state between two collections.
    pub open spec fn unmarked(self) -> bool {
        forall|i: int| 0 <= i < self.marks.len() ==> !#[trigger] self.marks[i]
    }

    /// Whether every reference in `shape` is live.
    pub open spec fn admits(self, shape: Shape) -> bool {
        match shape {
            Shape::Block(c) => self.live(c),
            Shape::Arrow(c) => self.live(c),
            Shape::Sequence(a, b) => self.live(a) && self.live(b),
            _ => true,
        }
    }

    /// The term that a node of the given shape denotes in this heap.
    pub open spec fn shape_term(self, shape: Shape) -> Term {
        match shape {
            Shape::Id => Term::Id,
            Shape::Number(bits, text) => Term::Number(bits, text),
            Shape::Word(name) => Term::Word(name),
            Shape::Hint(name) => Term::Hint(name),
            Shape::Opcode(opcode) => Term::Opcode(opcode),
            Shape::Block(c) => Term::block(self.term(c)),
            Shape::Arrow(c) => Term::arrow(self.term(c)),
            Shape::Sequence(a, b) => Term::pair(self.term(a), self.term(b)),
        }
    }

    /// Whether `c` is live and older than the live `p`.
    pub open spec fn below(self, c: Ptr, p: Ptr) -> bool {
        self.live(c) && self.rank(c) < self.rank(p)
    }

    /// Whether every reference in the node of the live `p` is live and older
    /// than `p`.
    pub open spec fn kids_below(self, p: Ptr) -> bool {
        match self.shape(p) {
            Shape::Block(c) => self.below(c, p),
            Shape::Arrow(c) => self.below(c, p),
            Shape::Sequence(a, b) => self.below(a, p) && self.below(b, p),
            _ => true,
        }
    }

    /// The reference that the next allocation returns.
    pub open spec fn next(self) -> Ptr {
        Ptr { index: self.first_vacant() as usize, generation: self.generation }
    }

    /// The heap after a node of the given shape was written into the first
    /// vacant slot.
    pub open spec fn put(self, shape: Shape) -> HeapView {
        HeapView {
            cells: self.cells.update(
                self.first_vacant(),
                Some(Cell { shape: shape, generation: self.generation, stamp: self.clock }),
            ),
            marks: self.marks,
            generation: self.generation,
            clock: self.clock + 1,
        }
    }

    /// The heap with every slot of `more` marked as well.
    pub open spec fn marked_with(self, more: Set<int>) -> HeapView {
        HeapView {
            cells: self.cells,
            marks: Seq::new(self.marks.len(), |i: int| self.marks[i] || more.contains(i)),
            generation: self.generation,
            clock: self.clock,
        }
    }

    /// The heap after a sweep: a marked slot keeps its node and loses its
    /// mark, every other slot is vacant, and the generation is one more.
    pub open spec fn swept(self) -> HeapView {
        HeapView {
            cells: Seq::new(
                self.cells.len(),
                |i: int|
                    if self.marks[i] {
                        self.cells[i]
                    } else {
                        None
                    },
            ),
            marks: Seq::new(self.marks.len(), |i: int| false),
            generation: (self.generation + 1) as u64,
            clock: self.clock,
        }
    }

    /// This heap came from `old` by allocation alone: what was live in `old`
    /// is live here and denotes the same term.
    pub open spec fn extends(self, old: HeapView) -> bool {
        &&& self.generation == old.generation
        &&& self.cells.len() == old.cells.len()
        &&& self.marks == old.marks
        &&& self.vacant() <= old.vacant()
        &&& forall|p: Ptr| #[trigger]
            old.live(p) ==> self.live(p) && self.term_of(p) == old.term_of(p) && self.rank(p)
                == old.rank(p)
    }
}


impl HeapView {
    /// Whether every one of the references is live.
    pub open spec fn all_live(self, ptrs: Seq<Ptr>) -> bool {
        forall|k: int| 0 <= k < ptrs.len() ==> self.live(#[trigger] ptrs[k])
    }

    /// The terms that the references denote, in order.
    pub open spec fn terms(self, ptrs: Seq<Ptr>) -> Seq<Term> {
        Seq::new(ptrs.len(), |k: int| self.term(ptrs[k]))
    }

    /// What an allocation states of the heaps before and after it: nothing
    /// that was live has changed, one slot was filled, and `p` is a fresh
    /// reference that denotes `t`.
    pub open spec fn allocated(self, old: HeapView, p: Ptr, t: Term) -> bool {
        &&& self.wf()
        &&& self.extends(old)
        &&& self.live(p)
        &&& !old.live(p)
        &&& self.term_of(p) == Some(t)
        &&& self.vacant() + 1 == old.vacant()
    }
}

/// Filling a vacant slot leaves one vacant slot fewer.
pub proof fn lemma_vacant_update(cells: Seq<Option<Cell>>, i: int, cell: Cell, n: int)
    requires
        0 <= i < cells.len(),
        cells[i] is None,
        0 <= n <= cells.len(),
    ensures
        vacant_upto(cells.update(i, Some(cell)), n) + (if i < n {
            1nat
        } else {
            0nat
        }) == vacant_upto(cells, n),
    decreases n,
{
    if n > 0 {
        lemma_vacant_update(cells, i, cell, n - 1);
    }
}

/// The first vacant slot is vacant, nothing before it is, and it exists
/// exactly when some slot among those counted is vacant.
pub proof fn lemma_first_vacant(cells: Seq<Option<Cell>>, i: int)
    requires
        0 <= i <= cells.len(),
    ensures
        i <= first_vacant_from(cells, i) <= cells.len(),
        first_vacant_from(cells, i) < cells.len() ==> cells[first_vacant_from(cells, i)] is None,
        forall|j: int| i <= j < first_vacant_from(cells, i) ==> cells[j] is Some,
    decreases cells.len() - i,
{
    if i < cells.len() && cells[i] is Some {
        lemma_first_vacant(cells, i + 1);
    }
}

/// A stretch of occupied slots holds no vacant one.
pub proof fn lemma_vacant_none(cells: Seq<Option<Cell>>, n: int)
    requires
        0 <= n <= cells.len(),
    ensures
        vacant_upto(cells, n) == 0 <==> forall|j: int| 0 <= j < n ==> cells[j] is Some,
        vacant_upto(cells, n) <= n,
    decreases n,
{
    if n > 0 {
        lemma_vacant_none(cells, n - 1);
        if vacant_upto(cells, n) == 0 {
            assert forall|j: int| 0 <= j < n implies cells[j] is Some by {
                if j < n - 1 {
                }
            }
        }
    }
}

/// A heap has a first vacant slot exactly when it has a vacant slot.
pub proof fn lemma_vacancy(h: HeapView)
    ensures
        0 <= h.first_vacant() <= h.cells.len(),
        h.vacant() > 0 <==> h.first_vacant() < h.cells.len(),
        h.first_vacant() < h.cells.len() ==> h.cells[h.first_vacant()] is None,
        h.vacant() <= h.cells.len(),
{
    lemma_first_vacant(h.cells, 0);
    lemma_vacant_none(h.cells, h.cells.len() as int);
}

proof fn lemma_put_ordered(h: HeapView, shape: Shape)
    requires
        h.wf(),
        h.admits(shape),
        h.vacant() > 0,
    ensures
        ordered(h.put(shape).cells),
        h.put(shape).wf(),
        forall|p: Ptr| #[trigger] h.live(p) ==> h.put(shape).live(p) && h.put(shape).rank(p) == h.rank(p),
        h.put(shape).live(h.next()),
        !h.live(h.next()),
        forall|p: Ptr| #[trigger] h.put(shape).live(p) ==> h.live(p) || p == h.next(),
        h.put(shape).vacant() + 1 == h.vacant(),
{
    lemma_vacancy(h);
    let h2 = h.put(shape);
    let fv = h.first_vacant();
    lemma_vacant_update(h.cells, fv, h2.cells[fv]->0, h.cells.len() as int);
    assert forall|i: int| 0 <= i < h2.cells.len() implies #[trigger] slot_ok(h2.cells, i) by {
        assert(slot_ok(h.cells, i));
        assert(h.slot_wf(i));
        if i == fv {
            match shape {
                Shape::Block(c) => {
                    assert(h.slot_wf(c.index as int));
                },
                Shape::Arrow(c) => {
                    assert(h.slot_wf(c.index as int));
                },
                Shape::Sequence(a, b) => {
                    assert(h.slot_wf(a.index as int));
                    assert(h.slot_wf(b.index as int));
                },
                _ => {},
            }
        }
    }
    assert forall|i: int| 0 <= i < h2.cells.len() implies #[trigger] h2.slot_wf(i) by {
        assert(h.slot_wf(i));
    }
}

proof fn lemma_put_keeps(h: HeapView, shape: Shape, p: Ptr)
    requires
        h.wf(),
        h.admits(shape),
        h.vacant() > 0,
        h.live(p),
    ensures
        h.put(shape).term_of(p) == h.term_of(p),
    decreases h.rank(p),
{
    lemma_put_ordered(h, shape);
    lemma_vacancy(h);
    assert(slot_ok(h.cells, p.index as int));
    match h.shape(p) {
        Shape::Block(c) => {
            lemma_put_keeps(h, shape, c);
        },
        Shape::Arrow(c) => {
            lemma_put_keeps(h, shape, c);
        },
        Shape::Sequence(a, b) => {
            lemma_put_keeps(h, shape, a);
            lemma_put_keeps(h, shape, b);
        },
        _ => {},
    }
}

/// An allocation into a heap that admits the node and has room: the heap
/// stays well formed, keeps what was live, and the new reference denotes
/// the term of the node.
pub proof fn lemma_put(h: HeapView, shape: Shape)
    requires
        h.wf(),
        h.admits(shape),
        h.vacant() > 0,
    ensures
        h.put(shape).allocated(h, h.next(), h.shape_term(shape)),
        h.put(shape).shape(h.next()) == shape,
        h.put(shape).cells[h.first_vacant()]->0.stamp == h.clock,
{
    lemma_put_ordered(h, shape);
    lemma_vacancy(h);
    let h2 = h.put(shape);
    assert forall|p: Ptr| #[trigger] h.live(p) implies h2.live(p) && h2.term_of(p) == h.term_of(p)
        && h2.rank(p) == h.rank(p) by {
        lemma_put_keeps(h, shape, p);
    }
    match shape {
        Shape::Block(c) => {
            lemma_put_keeps(h, shape, c);
        },
        Shape::Arrow(c) => {
            lemma_put_keeps(h, shape, c);
        },
        Shape::Sequence(a, b) => {
            lemma_put_keeps(h, shape, a);
            lemma_put_keeps(h, shape, b);
        },
        _ => {},
    }
}

/// A live reference denotes a term, and its own slot can be reached from it.
pub proof fn lemma_live_denotes(h: HeapView, p: Ptr)
    requires
        h.wf(),
    ensures
        h.term_of(p) is Some <==> h.live(p),
        h.live(p) ==> h.reach(p).contains(p.index as int),
        h.live(p) ==> h.admits(h.shape(p)),
        h.live(p) ==> h.term(p) == h.shape_term(h.shape(p)),
        h.live(p) ==> h.kids_below(p),
{
    if h.live(p) {
        assert(slot_ok(h.cells, p.index as int));
    }
}

/// What extends a heap that extends a third extends the third.
pub proof fn lemma_extends_trans(a: HeapView, b: HeapView, c: HeapView)
    requires
        b.extends(a),
        c.extends(b),
    ensures
        c.extends(a),
{
}


/// An occupied slot.
pub struct Node {
    pub(crate) object: Object,
    pub(crate) generation: u64,
    pub(crate) is_visible: bool,
    pub(crate) stamp: Ghost<nat>,
}

impl Node {
    fn new(object: Object, generation: u64, Ghost(stamp): Ghost<nat>) -> (node: Node)
        ensures
            node.object == object,
            node.generation == generation,
            !node.is_visible,
            node.stamp@ == stamp,
    {
        Node { object: object, generation: generation, is_visible: false, stamp: Ghost(stamp) }
    }

    pub(crate) open spec fn cell(&self) -> Cell {
        Cell { shape: self.object@, generation: self.generation, stamp: self.stamp@ }
    }
}

/// A garbage-collected heap of terms, with a fixed number of slots.
pub struct Heap {
    pub(crate) nodes: Vec<Option<Node>>,
    pub(crate) generation: u64,
    pub(crate) clock: Ghost<nat>,
}

impl View for Heap {
    type V = HeapView;

    closed spec fn view(&self) -> HeapView {
        HeapView {
            cells: Seq::new(
                self.nodes@.len(),
                |i: int|
                    match self.nodes@[i] {
                        Some(node) => Some(node.cell()),
                        None => None,
                    },
            ),
            marks: Seq::new(
                self.nodes@.len(),
                |i: int|
                    match self.nodes@[i] {
                        Some(node) => node.is_visible,
                        None => false,
                    },
            ),
            generation: self.generation,
            clock: self.clock@,
        }
    }
}

impl Ptr {
    pub(crate) fn new(index: usize, generation: u64) -> (p: Ptr)
        ensures
            p == (Ptr { index: index, generation: generation }),
    {
        Ptr { index: index, generation: generation }
    }
}

impl Heap {
    /// Creates a heap with the given capacity: every slot is vacant.
    pub fn with_capacity(capacity: usize) -> (heap: Heap)
        ensures
            heap@.wf(),
            heap@.capacity() == capacity,
            heap@.vacant() == capacity,
            heap@.generation == 0,
            heap@.unmarked(),
            forall|p: Ptr| !heap@.live(p),
    {
        let mut nodes: Vec<Option<Node>> = Vec::with_capacity(capacity);
        let mut i: usize = 0;
        while i < capacity
            invariant
                i <= capacity,
                nodes@.len() == i,
                forall|j: int| 0 <= j < i ==> nodes@[j] is None,
            decreases capacity - i,
        {
            nodes.push(None);
            i += 1;
        }
        let heap = Heap { nodes: nodes, generation: 0, clock: Ghost(0) };
        proof {
            lemma_all_vacant(heap@.cells, capacity as int);
            assert forall|k: int| 0 <= k < heap@.cells.len() implies #[trigger] slot_ok(
                heap@.cells,
                k,
            ) by {}
            assert forall|k: int| 0 <= k < heap@.cells.len() implies #[trigger] heap@.slot_wf(
                k,
            ) by {}
        }
        heap
    }

    /// The generation in which new nodes are allocated: the number of
    /// sweeps so far.
    pub fn generation(&self) -> (r: u64)
        ensures
            r == self@.generation,
    {
        self.generation
    }

    /// Whether `pointer` is live.
    pub fn is_live(&self, pointer: Ptr) -> (r: bool)
        ensures
            r == self@.live(pointer),
    {
        if pointer.index >= self.nodes.len() {
            return false;
        }
        match &self.nodes[pointer.index] {
            Some(node) => node.generation == pointer.generation,
            None => false,
        }
    }

    /// Reads the node that `pointer` refers to.  Fails with `Null` exactly
    /// when `pointer` is stale.
    pub fn get_ref(&self, pointer: Ptr) -> (r: Result<&Object, Error>)
        ensures
            match r {
                Ok(object) => self@.live(pointer) && object@ == self@.shape(pointer),
                Err(e) => e == Error::Null && !self@.live(pointer),
            },
    {
        if pointer.index >= self.nodes.len() {
            return Err(Error::Null);
        }
        match &self.nodes[pointer.index] {
            Some(node) => {
                if node.generation == pointer.generation {
                    Ok(&node.object)
                } else {
                    Err(Error::Null)
                }
            },
            None => Err(Error::Null),
        }
    }

    fn admits(&self, object: &Object) -> (r: bool)
        ensures
            r == self@.admits(object@),
    {
        match object {
            Object::Block(c) => self.is_live(*c),
            Object::Arrow(c) => self.is_live(*c),
            Object::Sequence(a, b) => self.is_live(*a) && self.is_live(*b),
            _ => true,
        }
    }

    /// Writes a node into the first vacant slot and returns a reference to
    /// it, of the current generation.  Fails with `Null` when the node
    /// holds a stale reference, and otherwise with `Space` when no slot is
    /// vacant; a failed call changes nothing.
    pub fn put(&mut self, object: Object) -> (r: Result<Ptr, Error>)
        requires
            old(self)@.wf(),
        ensures
            final(self)@.wf(),
            match r {
                Ok(p) => {
                    &&& old(self)@.admits(object@)
                    &&& old(self)@.vacant() > 0
                    &&& p == old(self)@.next()
                    &&& final(self)@ == old(self)@.put(object@)
                    &&& final(self)@.allocated(old(self)@, p, old(self)@.shape_term(object@))
                    &&& final(self)@.shape(p) == object@
                },
                Err(e) => {
                    &&& final(self)@ == old(self)@
                    &&& if old(self)@.admits(object@) {
                        e == Error::Space && old(self)@.vacant() == 0
                    } else {
                        e == Error::Null
                    }
                },
            },
    {
        if !self.admits(&object) {
            return Err(Error::Null);
        }
        let ghost h = self@;
        proof {
            lemma_vacancy(h);
        }
        let mut index: usize = 0;
        while index < self.nodes.len() && self.nodes[index].is_some()
            invariant
                self@ == h,
                index <= self.nodes@.len(),
                first_vacant_from(h.cells, 0) == first_vacant_from(h.cells, index as int),
            decreases self.nodes@.len() - index,
        {
            index += 1;
        }
        if index >= self.nodes.len() {
            return Err(Error::Space);
        }
        let ghost shape = object@;
        let node = Node::new(object, self.generation, Ghost(self.clock@));
        let pointer = Ptr::new(index, self.generation);
        self.nodes.set(index, Some(node));
        proof {
            self.clock = Ghost((h.clock + 1) as nat);
        }
        proof {
            lemma_put(h, shape);
            assert(self@.cells =~= h.put(shape).cells);
            assert(self@.marks =~= h.put(shape).marks);
        }
        Ok(pointer)
    }

    /// Allocates the empty program.  Fails with `Space` exactly when no
    /// slot is vacant.
    pub fn new_id(&mut self) -> (r: Result<Ptr, Error>)
        requires
            old(self)@.wf(),
        ensures
            final(self)@.wf(),
            match r {
                Ok(p) => final(self)@.allocated(old(self)@, p, Term::Id),
                Err(e) => final(self)@ == old(self)@ && e == Error::Space && old(self)@.vacant()
                    == 0,
            },
    {
        self.put(Object::Id)
    }

    /// Allocates a primitive combinator.  Fails with `Space` exactly when no
    /// slot is vacant.
    pub fn new_opcode(&mut self, opcode: Opcode) -> (r: Result<Ptr, Error>)
        requires
            old(self)@.wf(),
        ensures
            final(self)@.wf(),
            match r {
                Ok(p) => final(self)@.allocated(old(self)@, p, Term::Opcode(opcode)),
                Err(e) => final(self)@ == old(self)@ && e == Error::Space && old(self)@.vacant()
                    == 0,
            },
    {
        self.put(Object::Opcode(opcode))
    }

    /// Allocates a number, given as its bit pattern and its decimal text.
    /// Fails with `Space` exactly when no slot is vacant.
    pub fn new_number(&mut self, bits: u64, text: String) -> (r: Result<Ptr, Error>)
        requires
            old(self)@.wf(),
        ensures
            final(self)@.wf(),
            match r {
                Ok(p) => final(self)@.allocated(old(self)@, p, Term::Number(bits, text@)),
                Err(e) => final(self)@ == old(self)@ && e == Error::Space && old(self)@.vacant()
                    == 0,
            },
    {
        self.put(Object::Number(bits, text))
    }

    /// Allocates a word.  Fails with `Space` exactly when no slot is vacant.
    pub fn new_word(&mut self, value: String) -> (r: Result<Ptr, Error>)
        requires
            old(self)@.wf(),
        ensures
            final(self)@.wf(),
            match r {
                Ok(p) => final(self)@.allocated(old(self)@, p, Term::Word(value@)),
                Err(e) => final(self)@ == old(self)@ && e == Error::Space && old(self)@.vacant()
                    == 0,
            },
    {
        self.put(Object::Word(value))
    }

    /// Allocates a hint.  Fails with `Space` exactly when no slot is vacant.
    pub fn new_hint(&mut self, value: String) -> (r: Result<Ptr, Error>)
        requires
            old(self)@.wf(),
        ensures
            final(self)@.wf(),
            match r {
                Ok(p) => final(self)@.allocated(old(self)@, p, Term::Hint(value@)),
                Err(e) => final(self)@ == old(self)@ && e == Error::Space && old(self)@.vacant()
                    == 0,
            },
    {
        self.put(Object::Hint(value))
    }

    /// Allocates a block around `body`.  Fails with `Null` exactly when
    /// `body` is stale, and otherwise with `Space` exactly when no slot is
    /// vacant.
    pub fn new_block(&mut self, body: Ptr) -> (r: Result<Ptr, Error>)
        requires
            old(self)@.wf(),
        ensures
            final(self)@.wf(),
            match r {
                Ok(p) => {
                    &&& old(self)@.live(body)
                    &&& final(self)@.allocated(old(self)@, p, Term::block(old(self)@.term(body)))
                    &&& final(self)@.shape(p) == Shape::Block(body)
                },
                Err(e) => {
                    &&& final(self)@ == old(self)@
                    &&& if old(self)@.live(body) {
                        e == Error::Space && old(self)@.vacant() == 0
                    } else {
                        e == Error::Null
                    }
                },
            },
    {
        self.put(Object::Block(body))
    }

    /// Allocates a scope around `body`.  Fails with `Null` exactly when
    /// `body` is stale, and otherwise with `Space` exactly when no slot is
    /// vacant.
    pub fn new_arrow(&mut self, body: Ptr) -> (r: Result<Ptr, Error>)
        requires
            old(self)@.wf(),
        ensures
            final(self)@.wf(),
            match r {
                Ok(p) => {
                    &&& old(self)@.live(body)
                    &&& final(self)@.allocated(old(self)@, p, Term::arrow(old(self)@.term(body)))
                    &&& final(self)@.shape(p) == Shape::Arrow(body)
                },
                Err(e) => {
                    &&& final(self)@ == old(self)@
                    &&& if old(self)@.live(body) {
                        e == Error::Space && old(self)@.vacant() == 0
                    } else {
                        e == Error::Null
                    }
                },
            },
    {
        self.put(Object::Arrow(body))
    }

    /// Returns `fst` followed by `snd` in normal form: the empty program on
    /// the left gives `snd` itself, a sequence on the left is taken apart and
    /// rebuilt to the right, and anything else becomes the head of a new
    /// node.  Fails with `Null` exactly when one of the two is stale, and
    /// otherwise with `Space` exactly when the heap has fewer vacant slots
    /// than `fst` has atoms.
    pub fn new_sequence(&mut self, fst: Ptr, snd: Ptr) -> (r: Result<Ptr, Error>)
        requires
            old(self)@.wf(),
        ensures
            final(self)@.wf(),
            final(self)@.extends(old(self)@),
            match r {
                Ok(p) => {
                    &&& old(self)@.live(fst)
                    &&& old(self)@.live(snd)
                    &&& final(self)@.live(p)
                    &&& final(self)@.term_of(p) == Some(
                        cat(old(self)@.term(fst), old(self)@.term(snd)),
                    )
                    &&& final(self)@.vacant() + atoms(old(self)@.term(fst)) == old(self)@.vacant()
                },
                Err(e) => {
                    if old(self)@.live(fst) && old(self)@.live(snd) {
                        e == Error::Space && old(self)@.vacant() < atoms(old(self)@.term(fst))
                    } else {
                        e == Error::Null && final(self)@ == old(self)@
                    }
                },
            },
        decreases old(self)@.rank(fst),
    {
        if !self.is_live(fst) || !self.is_live(snd) {
            return Err(Error::Null);
        }
        proof {
            lemma_live_denotes(self@, fst);
            lemma_live_denotes(self@, snd);
        }
        let mut parts: Option<(Ptr, Ptr)> = None;
        let mut empty: bool = false;
        match self.get_ref(fst) {
            Ok(object) => {
                match object {
                    Object::Id => {
                        empty = true;
                    },
                    Object::Sequence(a, b) => {
                        parts = Some((*a, *b));
                    },
                    _ => {},
                }
            },
            Err(e) => {
                return Err(e);
            },
        }
        if empty {
            return Ok(snd);
        }
        match parts {
            Some((a, b)) => {
                proof {
                    lemma_live_denotes(self@, a);
                    lemma_live_denotes(self@, b);
                }
                let rhs = match self.new_sequence(b, snd) {
                    Ok(p) => p,
                    Err(e) => {
                        return Err(e);
                    },
                };
                let ghost mid = self@;
                proof {
                    lemma_live_denotes(mid, a);
                    lemma_live_denotes(mid, rhs);
                }
                let r = self.new_sequence(a, rhs);
                proof {
                    lemma_extends_trans(old(self)@, mid, self@);
                }
                r
            },
            None => {
                let r = self.put(Object::Sequence(fst, snd));
                r
            },
        }
    }

    /// Whether `pointer` refers to the empty program.  Fails with `Null`
    /// exactly when `pointer` is stale.
    pub fn is_id(&self, pointer: Ptr) -> (r: Result<bool, Error>)
        ensures
            match r {
                Ok(b) => self@.live(pointer) && b == (self@.shape(pointer) is Id),
                Err(e) => e == Error::Null && !self@.live(pointer),
            },
    {
        match self.get_ref(pointer) {
            Ok(object) => Ok(matches!(object, Object::Id)),
            Err(e) => Err(e),
        }
    }

    /// Whether `pointer` refers to a primitive combinator.  Fails with
    /// `Null` exactly when `pointer` is stale.
    pub fn is_opcode(&self, pointer: Ptr) -> (r: Result<bool, Error>)
        ensures
            match r {
                Ok(b) => self@.live(pointer) && b == (self@.shape(pointer) is Opcode),
                Err(e) => e == Error::Null && !self@.live(pointer),
            },
    {
        match self.get_ref(pointer) {
            Ok(object) => Ok(matches!(object, Object::Opcode(_))),
            Err(e) => Err(e),
        }
    }

    /// Whether `pointer` refers to a number.  Fails with `Null` exactly when
    /// `pointer` is stale.
    pub fn is_number(&self, pointer: Ptr) -> (r: Result<bool, Error>)
        ensures
            match r {
                Ok(b) => self@.live(pointer) && b == (self@.shape(pointer) is Number),
                Err(e) => e == Error::Null && !self@.live(pointer),
            },
    {
        match self.get_ref(pointer) {
            Ok(object) => Ok(matches!(object, Object::Number(_, _))),
            Err(e) => Err(e),
        }
    }

    /// Whether `pointer` refers to a word.  Fails with `Null` exactly when
    /// `pointer` is stale.
    pub fn is_word(&self, pointer: Ptr) -> (r: Result<bool, Error>)
        ensures
            match r {
                Ok(b) => self@.live(pointer) && b == (self@.shape(pointer) is Word),
                Err(e) => e == Error::Null && !self@.live(pointer),
            },
    {
        match self.get_ref(pointer) {
            Ok(object) => Ok(matches!(object, Object::Word(_))),
            Err(e) => Err(e),
        }
    }

    /// Whether `pointer` refers to a hint.  Fails with `Null` exactly when
    /// `pointer` is stale.
    pub fn is_hint(&self, pointer: Ptr) -> (r: Result<bool, Error>)
        ensures
            match r {
                Ok(b) => self@.live(pointer) && b == (self@.shape(pointer) is Hint),
                Err(e) => e == Error::Null && !self@.live(pointer),
            },
    {
        match self.get_ref(pointer) {
            Ok(object) => Ok(matches!(object, Object::Hint(_))),
            Err(e) => Err(e),
        }
    }

    /// Whether `pointer` refers to a block.  Fails with `Null` exactly when
    /// `pointer` is stale.
    pub fn is_block(&self, pointer: Ptr) -> (r: Result<bool, Error>)
        ensures
            match r {
                Ok(b) => self@.live(pointer) && b == (self@.shape(pointer) is Block),
                Err(e) => e == Error::Null && !self@.live(pointer),
            },
    {
        match self.get_ref(pointer) {
            Ok(object) => Ok(matches!(object, Object::Block(_))),
            Err(e) => Err(e),
        }
    }

    /// Whether `pointer` refers to a scope.  Fails with `Null` exactly when
    /// `pointer` is stale.
    pub fn is_arrow(&self, pointer: Ptr) -> (r: Result<bool, Error>)
        ensures
            match r {
                Ok(b) => self@.live(pointer) && b == (self@.shape(pointer) is Arrow),
                Err(e) => e == Error::Null && !self@.live(pointer),
            },
    {
        match self.get_ref(pointer) {
            Ok(object) => Ok(matches!(object, Object::Arrow(_))),
            Err(e) => Err(e),
        }
    }

    /// Whether `pointer` refers to a sequence.  Fails with `Null` exactly
    /// when `pointer` is stale.
    pub fn is_sequence(&self, pointer: Ptr) -> (r: Result<bool, Error>)
        ensures
            match r {
                Ok(b) => self@.live(pointer) && b == (self@.shape(pointer) is Sequence),
                Err(e) => e == Error::Null && !self@.live(pointer),
            },
    {
        match self.get_ref(pointer) {
            Ok(object) => Ok(matches!(object, Object::Sequence(_, _))),
            Err(e) => Err(e),
        }
    }

    /// The combinator that `pointer` refers to.  Fails with `Null` exactly
    /// when `pointer` is stale, and otherwise with `Tag` exactly when it
    /// refers to something else.
    pub fn get_opcode(&self, pointer: Ptr) -> (r: Result<Opcode, Error>)
        ensures
            match r {
                Ok(opcode) => self@.live(pointer) && self@.shape(pointer) == Shape::Opcode(opcode),
                Err(e) => if self@.live(pointer) {
                    e == Error::Tag && !(self@.shape(pointer) is Opcode)
                } else {
                    e == Error::Null
                },
            },
    {
        match self.get_ref(pointer) {
            Ok(object) => match object {
                Object::Opcode(value) => Ok(*value),
                _ => Err(Error::Tag),
            },
            Err(e) => Err(e),
        }
    }

    /// The bit pattern of the number that `pointer` refers to.  Fails with
    /// `Null` exactly when `pointer` is stale, and otherwise with `Tag`
    /// exactly when it refers to something else.
    pub fn get_number(&self, pointer: Ptr) -> (r: Result<u64, Error>)
        ensures
            match r {
                Ok(bits) => self@.live(pointer) && self@.shape(pointer) is Number
                    && self@.shape(pointer)->Number_0 == bits,
                Err(e) => if self@.live(pointer) {
                    e == Error::Tag && !(self@.shape(pointer) is Number)
                } else {
                    e == Error::Null
                },
            },
    {
        match self.get_ref(pointer) {
            Ok(object) => match object {
                Object::Number(bits, _) => Ok(*bits),
                _ => Err(Error::Tag),
            },
            Err(e) => Err(e),
        }
    }

    /// The name of the word that `pointer` refers to.  Fails with `Null`
    /// exactly when `pointer` is stale, and otherwise with `Tag` exactly
    /// when it refers to something else.
    pub fn get_word(&self, pointer: Ptr) -> (r: Result<String, Error>)
        ensures
            match r {
                Ok(name) => self@.live(pointer) && self@.shape(pointer) == Shape::Word(name@),
                Err(e) => if self@.live(pointer) {
                    e == Error::Tag && !(self@.shape(pointer) is Word)
                } else {
                    e == Error::Null
                },
            },
    {
        match self.get_ref(pointer) {
            Ok(object) => match object {
                Object::Word(value) => Ok(value.clone()),
                _ => Err(Error::Tag),
            },
            Err(e) => Err(e),
        }
    }

    /// The name of the hint that `pointer` refers to.  Fails with `Null`
    /// exactly when `pointer` is stale, and otherwise with `Tag` exactly
    /// when it refers to something else.
    pub fn get_hint(&self, pointer: Ptr) -> (r: Result<String, Error>)
        ensures
            match r {
                Ok(name) => self@.live(pointer) && self@.shape(pointer) == Shape::Hint(name@),
                Err(e) => if self@.live(pointer) {
                    e == Error::Tag && !(self@.shape(pointer) is Hint)
                } else {
                    e == Error::Null
                },
            },
    {
        match self.get_ref(pointer) {
            Ok(object) => match object {
                Object::Hint(value) => Ok(value.clone()),
                _ => Err(Error::Tag),
            },
            Err(e) => Err(e),
        }
    }

    /// The body of the block that `pointer` refers to.  Fails with `Null`
    /// exactly when `pointer` is stale, and otherwise with `Tag` exactly
    /// when it refers to something else.
    pub fn get_block_body(&self, pointer: Ptr) -> (r: Result<Ptr, Error>)
        ensures
            match r {
                Ok(body) => self@.live(pointer) && self@.shape(pointer) == Shape::Block(body),
                Err(e) => if self@.live(pointer) {
                    e == Error::Tag && !(self@.shape(pointer) is Block)
                } else {
                    e == Error::Null
                },
            },
    {
        match self.get_ref(pointer) {
            Ok(object) => match object {
                Object::Block(body) => Ok(*body),
                _ => Err(Error::Tag),
            },
            Err(e) => Err(e),
        }
    }

    /// The body of the scope that `pointer` refers to.  Fails with `Null`
    /// exactly when `pointer` is stale, and otherwise with `Tag` exactly
    /// when it refers to something else.
    pub fn get_arrow_body(&self, pointer: Ptr) -> (r: Result<Ptr, Error>)
        ensures
            match r {
                Ok(body) => self@.live(pointer) && self@.shape(pointer) == Shape::Arrow(body),
                Err(e) => if self@.live(pointer) {
                    e == Error::Tag && !(self@.shape(pointer) is Arrow)
                } else {
                    e == Error::Null
                },
            },
    {
        match self.get_ref(pointer) {
            Ok(object) => match object {
                Object::Arrow(body) => Ok(*body),
                _ => Err(Error::Tag),
            },
            Err(e) => Err(e),
        }
    }

    /// The first part of the sequence that `pointer` refers to.  Fails with
    /// `Null` exactly when `pointer` is stale, and otherwise with `Tag`
    /// exactly when it refers to something else.
    pub fn get_sequence_fst(&self, pointer: Ptr) -> (r: Result<Ptr, Error>)
        ensures
            match r {
                Ok(fst) => self@.live(pointer) && self@.shape(pointer) is Sequence
                    && self@.shape(pointer)->Sequence_0 == fst,
                Err(e) => if self@.live(pointer) {
                    e == Error::Tag && !(self@.shape(pointer) is Sequence)
                } else {
                    e == Error::Null
                },
            },
    {
        match self.get_ref(pointer) {
            Ok(object) => match object {
                Object::Sequence(fst, _) => Ok(*fst),
                _ => Err(Error::Tag),
            },
            Err(e) => Err(e),
        }
    }

    /// The second part of the sequence that `pointer` refers to.  Fails with
    /// `Null` exactly when `pointer` is stale, and otherwise with `Tag`
    /// exactly when it refers to something else.
    pub fn get_sequence_snd(&self, pointer: Ptr) -> (r: Result<Ptr, Error>)
        ensures
            match r {
                Ok(snd) => self@.live(pointer) && self@.shape(pointer) is Sequence
                    && self@.shape(pointer)->Sequence_1 == snd,
                Err(e) => if self@.live(pointer) {
                    e == Error::Tag && !(self@.shape(pointer) is Sequence)
                } else {
                    e == Error::Null
                },
            },
    {
        match self.get_ref(pointer) {
            Ok(object) => match object {
                Object::Sequence(_, snd) => Ok(*snd),
                _ => Err(Error::Tag),
            },
            Err(e) => Err(e),
        }
    }

    fn set_mark(&mut self, index: usize, visible: bool)
        requires
            index < old(self)@.cells.len(),
            old(self)@.cells[index as int] is Some,
        ensures
            final(self)@.cells == old(self)@.cells,
            final(self)@.marks == old(self)@.marks.update(index as int, visible),
            final(self)@.generation == old(self)@.generation,
            final(self)@.clock == old(self)@.clock,
    {
        match &mut self.nodes[index] {
            Some(node) => {
                node.is_visible = visible;
            },
            None => {},
        }
        proof {
            assert(self@.cells =~= old(self)@.cells);
            assert(self@.marks =~= old(self)@.marks.update(index as int, visible));
        }
    }

    /// Marks every slot that can be reached from `root`.  Fails with `Null`
    /// exactly when `root` is stale, and then changes nothing.  Marking
    /// what is marked already changes nothing.
    pub fn mark(&mut self, root: Ptr) -> (r: Result<(), Error>)
        requires
            old(self)@.wf(),
        ensures
            final(self)@.wf(),
            match r {
                Ok(_) => old(self)@.live(root) && final(self)@ == old(self)@.marked_with(
                    old(self)@.reach(root),
                ),
                Err(e) => e == Error::Null && !old(self)@.live(root) && final(self)@ == old(self)@,
            },
        decreases old(self)@.rank(root),
    {
        let mut kids: (Option<Ptr>, Option<Ptr>) = (None, None);
        match self.get_ref(root) {
            Ok(object) => {
                match object {
                    Object::Block(body) => {
                        kids = (Some(*body), None);
                    },
                    Object::Arrow(body) => {
                        kids = (Some(*body), None);
                    },
                    Object::Sequence(fst, snd) => {
                        kids = (Some(*fst), Some(*snd));
                    },
                    _ => {},
                }
            },
            Err(e) => {
                return Err(e);
            },
        }
        let ghost h = self@;
        proof {
            lemma_live_denotes(h, root);
        }
        match kids.0 {
            Some(a) => {
                proof {
                    lemma_live_denotes(h, a);
                }
                match self.mark(a) {
                    Ok(_) => {},
                    Err(e) => {
                        return Err(e);
                    },
                }
                assert(self@.marked(a));
            },
            None => {},
        }
        let ghost first = self@;
        match kids.1 {
            Some(b) => {
                proof {
                    lemma_live_denotes(h, b);
                }
                proof {
                    lemma_live_denotes(first, b);
                }
                match self.mark(b) {
                    Ok(_) => {},
                    Err(e) => {
                        return Err(e);
                    },
                }
                assert(self@.marked(b));
            },
            None => {},
        }
        let ghost mid = self@;
        self.set_mark(root.index, true);
        proof {
            let goal = h.marked_with(h.reach(root));
            assert(self@.marks =~= goal.marks);
            match kids.0 {
                Some(a) => {
                    assert(first.marked(a));
                    assert(mid.marked(a));
                },
                None => {},
            }
            assert forall|i: int| 0 <= i < self@.cells.len() implies #[trigger] self@.slot_wf(
                i,
            ) by {
                assert(mid.slot_wf(i));
                assert(slot_ok(mid.cells, i));
            }
        }
        Ok(())
    }

    /// Clears every slot that is not marked, takes the mark from the
    /// others, and begins the next generation: references to the cleared
    /// slots are stale from then on.
    pub fn sweep(&mut self) -> (r: Result<(), Error>)
        requires
            old(self)@.wf(),
            old(self)@.generation < u64::MAX,
        ensures
            r is Ok,
            final(self)@.wf(),
            final(self)@ == old(self)@.swept(),
    {
        let ghost h = self@;
        proof {
            assert forall|j: int| 0 <= j < h.cells.len() && h.cells[j] is None implies !h.marks[j] by {
                assert(h.slot_wf(j));
            }
        }
        let mut index: usize = 0;
        while index < self.nodes.len()
            invariant
                index <= self.nodes@.len(),
                self@.cells.len() == h.cells.len(),
                self@.marks.len() == h.cells.len(),
                h.marks.len() == h.cells.len(),
                self@.generation == h.generation,
                self@.clock == h.clock,
                forall|j: int| 0 <= j < index ==> #[trigger] self@.cells[j] == h.swept().cells[j],
                forall|j: int| 0 <= j < index ==> !#[trigger] self@.marks[j],
                forall|j: int| index <= j < h.cells.len() ==> #[trigger] self@.cells[j] == h.cells[j],
                forall|j: int| index <= j < h.cells.len() ==> #[trigger] self@.marks[j] == h.marks[j],
                forall|j: int| 0 <= j < h.cells.len() && h.cells[j] is None ==> !h.marks[j],
            decreases self.nodes@.len() - index,
        {
            let ghost before = self@;
            let keep = match &self.nodes[index] {
                Some(node) => node.is_visible,
                None => false,
            };
            proof {
                assert(before.marks[index as int] == keep);
                assert(before.cells[index as int] == h.cells[index as int]);
                assert(h.marks[index as int] == keep);
                assert(h.swept().cells[index as int] == if keep {
                    h.cells[index as int]
                } else {
                    None
                });
            }
            if keep {
                self.set_mark(index, false);
            } else {
                self.nodes.set(index, None);
                proof {
                    assert(self@.cells =~= before.cells.update(index as int, None));
                    assert(self@.marks =~= before.marks.update(index as int, false));
                }
            }
            index += 1;
        }
        let ghost mid = self@;
        proof {
            assert(mid.cells =~= h.swept().cells);
            assert(mid.marks =~= h.swept().marks);
        }
        self.generation = self.generation + 1;
        proof {
            assert(self@.cells =~= mid.cells);
            assert(self@.marks =~= mid.marks);
            lemma_swept(h);
        }
        Ok(())
    }
}

proof fn lemma_swept_keeps(h: HeapView, p: Ptr)
    requires
        h.wf(),
        ordered(h.swept().cells),
        h.swept().live(p),
    ensures
        h.swept().term_of(p) == h.term_of(p),
        h.swept().reach(p) == h.reach(p),
    decreases h.rank(p),
{
    assert(slot_ok(h.cells, p.index as int));
    assert(slot_ok(h.swept().cells, p.index as int));
    match h.shape(p) {
        Shape::Block(c) => {
            lemma_swept_keeps(h, c);
        },
        Shape::Arrow(c) => {
            lemma_swept_keeps(h, c);
        },
        Shape::Sequence(a, b) => {
            lemma_swept_keeps(h, a);
            lemma_swept_keeps(h, b);
        },
        _ => {},
    }
}

/// A sweep keeps exactly the marked nodes: a reference is live afterwards
/// exactly when it was live and its slot was marked, and it then denotes the
/// term that it denoted before.
pub proof fn lemma_swept(h: HeapView)
    requires
        h.wf(),
        h.generation < u64::MAX,
    ensures
        h.swept().wf(),
        forall|p: Ptr| #[trigger] h.swept().live(p) <==> h.live(p) && h.marked(p),
        forall|p: Ptr| #[trigger]
            h.swept().live(p) ==> h.swept().term_of(p) == h.term_of(p) && h.swept().rank(p)
                == h.rank(p) && h.swept().reach(p) == h.reach(p),
        h.swept().vacant() >= h.vacant(),
        h.swept().unmarked(),
{
    let s = h.swept();
    assert forall|i: int| 0 <= i < s.cells.len() implies #[trigger] slot_ok(s.cells, i) by {
        assert(slot_ok(h.cells, i));
        assert(h.slot_wf(i));
    }
    assert forall|i: int| 0 <= i < s.cells.len() implies #[trigger] s.slot_wf(i) by {
        assert(h.slot_wf(i));
    }
    assert forall|p: Ptr| #[trigger] s.live(p) implies s.term_of(p) == h.term_of(p) && s.rank(p)
        == h.rank(p) && s.reach(p) == h.reach(p) by {
        lemma_swept_keeps(h, p);
    }
    lemma_swept_vacant(h, h.cells.len() as int);
}

proof fn lemma_swept_vacant(h: HeapView, n: int)
    requires
        0 <= n <= h.cells.len(),
    ensures
        vacant_upto(h.swept().cells, n) >= vacant_upto(h.cells, n),
    decreases n,
{
    if n > 0 {
        lemma_swept_vacant(h, n - 1);
    }
}

/// A chain costs at least what any of its tails costs.
pub proof fn lemma_chain_cost_skip(items: Seq<Term>, j: int)
    requires
        0 <= j <= items.len(),
    ensures
        crate::term::chain_cost(items.skip(j)) <= crate::term::chain_cost(items),
        crate::term::chain_cost(items) >= 1,
    decreases j,
{
    if j > 0 {
        lemma_chain_cost_skip(items.drop_first(), j - 1);
        assert(items.drop_first().skip(j - 1) =~= items.skip(j));
    } else {
        assert(items.skip(0) =~= items);
        lemma_chain_cost_pos(items);
    }
    lemma_chain_cost_pos(items);
}

/// A chain costs at least the node of its end.
pub proof fn lemma_chain_cost_pos(items: Seq<Term>)
    ensures
        crate::term::chain_cost(items) >= 1,
    decreases items.len(),
{
    if items.len() > 0 {
        lemma_chain_cost_pos(items.drop_first());
    }
}

/// What was live stays live, with its term, in a heap that extends another.
pub proof fn lemma_extends_terms(old: HeapView, new: HeapView, ptrs: Seq<Ptr>)
    requires
        new.extends(old),
        old.all_live(ptrs),
    ensures
        new.all_live(ptrs),
        new.terms(ptrs) == old.terms(ptrs),
{
    assert forall|k: int| 0 <= k < ptrs.len() implies new.live(#[trigger] ptrs[k]) && new.term(
        ptrs[k],
    ) == old.term(ptrs[k]) by {
        assert(old.live(ptrs[k]));
    }
    assert(new.terms(ptrs) =~= old.terms(ptrs));
}

impl Heap {
    /// Whether every one of the references is live.
    pub fn all_live(&self, items: &Vec<Ptr>) -> (r: bool)
        ensures
            r == self@.all_live(items@),
    {
        let mut index: usize = 0;
        while index < items.len()
            invariant
                index <= items@.len(),
                forall|k: int| 0 <= k < index ==> self@.live(#[trigger] items@[k]),
            decreases items@.len() - index,
        {
            if !self.is_live(items[index]) {
                return false;
            }
            index += 1;
        }
        true
    }

    /// Joins the items, in order, into one chain that ends in the empty
    /// program.  Fails with `Null` exactly when one of the items is stale,
    /// and then changes nothing; otherwise with `Space` exactly when the
    /// heap has fewer vacant slots than the chain costs.
    pub fn new_chain(&mut self, items: &Vec<Ptr>) -> (r: Result<Ptr, Error>)
        requires
            old(self)@.wf(),
        ensures
            final(self)@.wf(),
            final(self)@.extends(old(self)@),
            match r {
                Ok(p) => {
                    &&& old(self)@.all_live(items@)
                    &&& final(self)@.live(p)
                    &&& final(self)@.term_of(p) == Some(
                        crate::term::chain(old(self)@.terms(items@)),
                    )
                    &&& final(self)@.vacant() + crate::term::chain_cost(old(self)@.terms(items@))
                        == old(self)@.vacant()
                },
                Err(e) => if old(self)@.all_live(items@) {
                    e == Error::Space && old(self)@.vacant() < crate::term::chain_cost(
                        old(self)@.terms(items@),
                    )
                } else {
                    e == Error::Null && final(self)@ == old(self)@
                },
            },
    {
        if !self.all_live(items) {
            return Err(Error::Null);
        }
        let ghost h = self@;
        let ghost terms = h.terms(items@);
        proof {
            lemma_chain_cost_skip(terms, terms.len() as int);
            assert(terms.skip(terms.len() as int) =~= Seq::<Term>::empty());
        }
        let mut xs = match self.new_id() {
            Ok(p) => p,
            Err(e) => {
                return Err(e);
            },
        };
        let mut index: usize = items.len();
        proof {
            lemma_extends_terms(h, self@, items@);
        }
        while index > 0
            invariant
                index <= items@.len(),
                h == old(self)@,
                self@.wf(),
                self@.extends(h),
                h.all_live(items@),
                terms == h.terms(items@),
                self@.all_live(items@),
                self@.terms(items@) == terms,
                self@.live(xs),
                self@.term_of(xs) == Some(crate::term::chain(terms.skip(index as int))),
                self@.vacant() + crate::term::chain_cost(terms.skip(index as int)) == h.vacant(),
            decreases index,
        {
            let ghost before = self@;
            index -= 1;
            let item = items[index];
            proof {
                assert(before.live(items@[index as int]));
                assert(terms.skip(index as int).drop_first() =~= terms.skip(index as int + 1));
                assert(terms.skip(index as int)[0] == before.term(item));
                lemma_chain_cost_skip(terms, index as int);
            }
            xs = match self.new_sequence(item, xs) {
                Ok(p) => p,
                Err(e) => {
                    proof {
                        lemma_extends_trans(h, before, self@);
                    }
                    return Err(e);
                },
            };
            proof {
                lemma_extends_trans(h, before, self@);
                lemma_extends_terms(before, self@, items@);
            }
        }
        proof {
            assert(terms.skip(0) =~= terms);
        }
        Ok(xs)
    }
}

/// The terms of a sequence of references that grew by one.
pub proof fn lemma_terms_push(h: HeapView, ptrs: Seq<Ptr>, p: Ptr)
    requires
        h.all_live(ptrs),
        h.live(p),
    ensures
        h.all_live(ptrs.push(p)),
        h.terms(ptrs.push(p)) == h.terms(ptrs).push(h.term(p)),
{
    assert forall|k: int| 0 <= k < ptrs.push(p).len() implies h.live(
        #[trigger] ptrs.push(p)[k],
    ) by {
        if k < ptrs.len() {
            assert(h.live(ptrs[k]));
        }
    }
    assert(h.terms(ptrs.push(p)) =~= h.terms(ptrs).push(h.term(p)));
}

/// Slots that are all vacant count in full.
pub proof fn lemma_all_vacant(cells: Seq<Option<Cell>>, n: int)
    requires
        0 <= n <= cells.len(),
        forall|j: int| 0 <= j < n ==> cells[j] is None,
    ensures
        vacant_upto(cells, n) == n,
    decreases n,
{
    if n > 0 {
        lemma_all_vacant(cells, n - 1);
    }
}

} // verus!
