use vstd::prelude::*;
use crate::command::Command;
use crate::command::CommandLine;
use crate::command::command;
use crate::command::command_of;
use crate::error::Error;
use crate::heap::Heap;
use crate::heap::HeapView;
use crate::heap::Ptr;
use crate::heap::lemma_extends_trans;
use crate::heap::lemma_swept;
use crate::library::Binding;
use crate::library::Library;
use crate::library::find;
use crate::library::lemma_find;
use crate::library::lemma_find_at;
use crate::machine::Bindings;
use crate::machine::Machine;
use crate::reduce::bindings_of;
use crate::reduce::lemma_library_extends;
use crate::reduce::library_closed;
use crate::reduce::reduce;
use crate::syntax::parse_cost;
use crate::syntax::parse_text;
use crate::syntax::text_of;
use crate::term::Term;
use crate::text::Numeral;

verus! {

/// The term that a body reduces to under the bindings, within the quota;
/// `None` where the brackets of the body do not match.
pub open spec fn evaluate(bindings: Bindings, body: Seq<char>, table: Seq<Numeral>, quota: nat)
    -> Option<Term> {
    match parse_text(body, table) {
        Some(t) => Some(Machine::new(t).run(bindings, quota).result()),
        None => None,
    }
}

/// The nodes that reading and reducing a body allocates.
pub open spec fn evaluate_cost(
    bindings: Bindings,
    body: Seq<char>,
    table: Seq<Numeral>,
    quota: nat,
) -> nat {
    match parse_text(body, table) {
        Some(t) => parse_cost(body, table) + Machine::new(t).run_cost(bindings, quota) + Machine::new(
            t,
        ).run(bindings, quota).result_cost(),
        None => parse_cost(body, table),
    }
}

/// The error of reading and reducing a body that fails: `Syntax` where the
/// body was read to its end and its brackets do not match, `Space` where
/// the heap is full before.
pub open spec fn evaluate_error(body: Seq<char>, table: Seq<Numeral>, vacant: nat) -> Error {
    if parse_text(body, table) is Some || vacant < parse_cost(body, table) {
        Error::Space
    } else {
        Error::Syntax
    }
}

/// The body that a command reads and reduces, if it has one.
pub open spec fn body_of(c: Command) -> Option<Seq<char>> {
    match c {
        Command::Insert(_, body) => Some(body),
        Command::Delete(_) => None,
        Command::Eval(body) => Some(body),
    }
}

/// The nodes that a command allocates.
pub open spec fn command_cost(bindings: Bindings, c: Command, table: Seq<Numeral>, quota: nat)
    -> nat {
    match body_of(c) {
        Some(body) => evaluate_cost(bindings, body, table, quota),
        None => 0,
    }
}

/// Whether a command can be carried out: its body, if it has one, has
/// matching brackets.
pub open spec fn command_reads(c: Command, table: Seq<Numeral>) -> bool {
    match body_of(c) {
        Some(body) => parse_text(body, table) is Some,
        None => true,
    }
}

/// The bindings after a command that can be carried out.
pub open spec fn command_bindings(bindings: Bindings, c: Command, table: Seq<Numeral>, quota: nat)
    -> Bindings {
    match c {
        Command::Insert(name, body) => bindings.insert(
            name,
            evaluate(bindings, body, table, quota)->0,
        ),
        Command::Delete(name) => bindings.remove(name),
        Command::Eval(_) => bindings,
    }
}

/// The answer to a command that can be carried out: the text of the result
/// for a body, behind a colon and the name for an insertion, and a tilde
/// and the name for a deletion.
pub open spec fn command_reply(bindings: Bindings, c: Command, table: Seq<Numeral>, quota: nat)
    -> Seq<char> {
    match c {
        Command::Insert(name, body) => seq![':'] + name + seq![' '] + text_of(
            evaluate(bindings, body, table, quota)->0,
        ),
        Command::Delete(name) => seq!['~'] + name,
        Command::Eval(body) => text_of(evaluate(bindings, body, table, quota)->0),
    }
}

/// The bindings after one line of an image: an empty line changes nothing,
/// and a line whose command cannot be read ends the replay.
pub open spec fn line_bindings(bindings: Bindings, line: Seq<char>, table: Seq<Numeral>, quota: nat)
    -> Option<Bindings> {
    if line.len() == 0 {
        Some(bindings)
    } else if command_reads(command_of(line), table) {
        Some(command_bindings(bindings, command_of(line), table, quota))
    } else {
        None
    }
}

/// The bindings after the lines of an image were replayed in order,
/// starting from no bindings; `None` where a line cannot be read.
pub open spec fn replay(lines: Seq<Seq<char>>, table: Seq<Numeral>, quota: nat) -> Option<Bindings>
    decreases lines.len(),
{
    if lines.len() == 0 {
        Some(Map::empty())
    } else {
        match replay(lines.drop_last(), table, quota) {
            Some(bindings) => line_bindings(bindings, lines.last(), table, quota),
            None => None,
        }
    }
}

/// The nodes that replaying the lines allocates, if nothing is reclaimed
/// in between.
pub open spec fn replay_cost(lines: Seq<Seq<char>>, table: Seq<Numeral>, quota: nat) -> nat
    decreases lines.len(),
{
    if lines.len() == 0 {
        0
    } else {
        replay_cost(lines.drop_last(), table, quota) + match replay(
            lines.drop_last(),
            table,
            quota,
        ) {
            Some(bindings) => if lines.last().len() == 0 {
                0
            } else {
                command_cost(bindings, command_of(lines.last()), table, quota)
            },
            None => 0,
        }
    }
}

/// Lines that can be replayed can be replayed up to any point, at no more
/// than the cost of the whole.
pub proof fn lemma_replay_prefix(lines: Seq<Seq<char>>, table: Seq<Numeral>, quota: nat, k: int)
    requires
        0 <= k <= lines.len(),
    ensures
        replay(lines, table, quota) is Some ==> replay(lines.take(k), table, quota) is Some,
        replay_cost(lines.take(k), table, quota) <= replay_cost(lines, table, quota),
    decreases lines.len(),
{
    if k == lines.len() {
        assert(lines.take(k) =~= lines);
    } else {
        lemma_replay_prefix(lines.drop_last(), table, quota, k);
        assert(lines.drop_last().take(k) =~= lines.take(k));
    }
}

/// The text of a dictionary: for each binding, in the order of the names,
/// a colon, the name, a space, the text of the term, and a line feed.
pub open spec fn dump(h: HeapView, library: Seq<Binding>) -> Seq<char>
    decreases library.len(),
{
    if library.len() == 0 {
        Seq::empty()
    } else {
        dump(h, library.drop_last()) + seq![':'] + library.last().name + seq![' '] + text_of(
            h.term(library.last().value),
        ) + seq!['\n']
    }
}

/// The values of the dictionary, in the order of the names: the roots of
/// the heap of a session.
pub open spec fn roots(library: Seq<Binding>) -> Seq<Ptr> {
    Seq::new(library.len(), |i: int| library[i].value)
}

/// Whether the heap holds nothing but what the dictionary reaches.
pub open spec fn tidy(h: HeapView, library: Seq<Binding>) -> bool {
    forall|i: int|
        0 <= i < h.cells.len() && (#[trigger] h.cells[i]) is Some ==> crate::heap_laws::reachable(
            h,
            roots(library),
            i,
        )
}

/// A session: a heap and a dictionary of terms that live in it.
pub struct Pod {
    pub(crate) heap: Heap,
    pub(crate) tab: Library,
}

impl Pod {
    /// The heap of the session.
    pub closed spec fn heap(&self) -> HeapView {
        self.heap@
    }

    /// The dictionary of the session, as references into the heap.
    pub closed spec fn library(&self) -> Seq<Binding> {
        self.tab@
    }

    /// The dictionary of the session, as terms.
    pub open spec fn bindings(&self) -> Bindings {
        bindings_of(self.heap(), self.library())
    }

    /// The invariant of a session: its heap and its dictionary are well
    /// formed, every value of the dictionary is live in the heap, and no
    /// slot of the heap is marked.
    pub open spec fn wf(&self) -> bool {
        &&& self.heap().wf()
        &&& self.heap().unmarked()
        &&& crate::library::sorted(self.library())
        &&& library_closed(self.heap(), self.library())
    }

    /// Whether the heap of the session holds nothing but what the
    /// dictionary reaches.
    pub open spec fn tidy(&self) -> bool {
        tidy(self.heap(), self.library())
    }

    /// A session with an empty dictionary and a heap of the given capacity.
    pub fn with_capacity(space_quota: usize) -> (r: Pod)
        ensures
            r.wf(),
            r.tidy(),
            r.library().len() == 0,
            r.heap().capacity() == space_quota,
            r.heap().vacant() == space_quota,
            r.heap().generation == 0,
    {
        let heap = Heap::with_capacity(space_quota);
        proof {
            assert forall|i: int| 0 <= i < heap@.cells.len() implies !((
            #[trigger] heap@.cells[i]) is Some) by {
                let p = Ptr { index: i as usize, generation: heap@.cells[i]->0.generation };
                assert(!heap@.live(p));
            }
        }
        Pod::with_heap(heap)
    }

    /// The generation of the heap: the number of commands that were
    /// carried out.
    pub fn generation(&self) -> (r: u64)
        ensures
            r == self.heap().generation,
    {
        self.heap.generation()
    }

    /// A session with an empty dictionary on the given heap.
    fn with_heap(heap: Heap) -> (r: Pod)
        requires
            heap@.wf(),
            heap@.unmarked(),
        ensures
            r.wf(),
            r.heap() == heap@,
            r.library().len() == 0,
    {
        Pod { heap: heap, tab: Library::new() }
    }

    /// Marks what the dictionary holds and sweeps the rest away.
    fn collect(&mut self)
        requires
            old(self).wf(),
            old(self).heap().generation < u64::MAX,
        ensures
            final(self).wf(),
            final(self).tidy(),
            final(self).library() == old(self).library(),
            final(self).bindings() == old(self).bindings(),
            final(self).heap().capacity() == old(self).heap().capacity(),
            final(self).heap().generation == old(self).heap().generation + 1,
            final(self).heap().vacant() >= old(self).heap().vacant(),
    {
        let ghost h = self.heap@;
        let ghost lib = self.tab@;
        let ghost all = roots(lib);
        let mut i: usize = 0;
        proof {
            assert(all.take(0) =~= Seq::<Ptr>::empty());
        }
        while i < self.tab.len()
            invariant
                i <= lib.len(),
                lib == self.tab@,
                lib == old(self).tab@,
                all == roots(lib),
                h == old(self).heap@,
                h.wf(),
                self.heap@.wf(),
                self.heap@ == crate::heap_laws::mark_all(h, all.take(i as int)),
                library_closed(h, lib),
            decreases lib.len() - i,
        {
            let value = self.tab.value_at(i);
            proof {
                assert(h.live(lib[i as int].value));
                crate::heap_laws::lemma_mark_all(h, all.take(i as int));
                assert(all.take(i + 1).drop_last() =~= all.take(i as int));
                assert(all.take(i + 1).last() == value);
            }
            match self.heap.mark(value) {
                Ok(_) => {},
                Err(_) => {},
            }
            i += 1;
        }
        let ghost marked = self.heap@;
        proof {
            assert(all.take(lib.len() as int) =~= all);
            crate::heap_laws::lemma_mark_all(h, all);
        }
        match self.heap.sweep() {
            Ok(_) => {},
            Err(_) => {},
        }
        proof {
            lemma_swept(marked);
            assert forall|j: int| 0 <= j < lib.len() implies self.heap@.live(
                (#[trigger] lib[j]).value,
            ) by {
                assert(h.live(lib[j].value));
                crate::heap::lemma_live_denotes(h, lib[j].value);
                assert(all[j] == lib[j].value);
                assert(crate::heap_laws::reachable(h, all, lib[j].value.index as int));
                assert(marked.marked(lib[j].value));
            }
            assert forall|i: int|
                0 <= i < self.heap@.cells.len() && (#[trigger] self.heap@.cells[i])
                    is Some implies crate::heap_laws::reachable(self.heap@, all, i) by {
                assert(marked.marks[i]);
                assert(crate::heap_laws::reachable(h, all, i));
                let k = choose|k: int| 0 <= k < all.len() && h.reach(#[trigger] all[k]).contains(i);
                assert(self.heap@.live(lib[k].value));
                assert(self.heap@.reach(all[k]) == marked.reach(all[k]));
            }
            assert forall|name: Seq<char>| find(lib, name) is Some implies self.heap@.term(
                find(lib, name)->0,
            ) == h.term(find(lib, name)->0) by {
                lemma_find(lib, name);
                let v = find(lib, name)->0;
                let j = choose|j: int|
                    0 <= j < lib.len() && (#[trigger] lib[j]).name == name && lib[j].value == v;
                assert(self.heap@.live(lib[j].value));
            }
            assert(bindings_of(self.heap@, lib) =~= bindings_of(h, lib));
        }
    }

    /// Carries out the command that a line stands for and returns the
    /// answer.  An insertion or a body is read with the given table of
    /// number literals and reduced within the quota; an insertion then
    /// binds its name to the result, and a deletion takes a binding away.
    /// After a command that was carried out, everything that the
    /// dictionary does not hold is swept from the heap.
    ///
    /// A command is carried out exactly when the brackets of its body
    /// match and the heap has room for what it costs.  A command that
    /// fails leaves the dictionary as it was.
    pub fn eval(&mut self, src: &str, numerals: &Vec<Numeral>, time_quota: u64) -> (r: Result<
        String,
        Error,
    >)
        requires
            old(self).wf(),
            old(self).heap().generation < u64::MAX,
        ensures
            final(self).wf(),
            final(self).heap().capacity() == old(self).heap().capacity(),
            r is Ok <==> command_reads(command_of(src@), numerals@) && old(self).heap().vacant()
                >= command_cost(
                old(self).bindings(),
                command_of(src@),
                numerals@,
                time_quota as nat,
            ),
            match r {
                Ok(reply) => {
                    &&& final(self).tidy()
                    &&& reply@ == command_reply(
                        old(self).bindings(),
                        command_of(src@),
                        numerals@,
                        time_quota as nat,
                    )
                    &&& final(self).bindings() == command_bindings(
                        old(self).bindings(),
                        command_of(src@),
                        numerals@,
                        time_quota as nat,
                    )
                    &&& final(self).heap().generation == old(self).heap().generation + 1
                    &&& final(self).heap().vacant() + command_cost(
                        old(self).bindings(),
                        command_of(src@),
                        numerals@,
                        time_quota as nat,
                    ) >= old(self).heap().vacant()
                },
                Err(e) => {
                    &&& final(self).bindings() == old(self).bindings()
                    &&& final(self).library() == old(self).library()
                    &&& final(self).heap().extends(old(self).heap())
                    &&& body_of(command_of(src@)) is Some
                    &&& e == evaluate_error(
                        body_of(command_of(src@))->0,
                        numerals@,
                        old(self).heap().vacant(),
                    )
                },
            },
    {
        let ghost h = self.heap@;
        let ghost lib = self.tab@;
        let ghost bindings = bindings_of(h, lib);
        let mut dst = String::new();
        proof {
            reveal_strlit(":");
            reveal_strlit(" ");
            reveal_strlit("~");
            assert(":"@ =~= seq![':']);
            assert(" "@ =~= seq![' ']);
            assert("~"@ =~= seq!['~']);
        }
        match command(src) {
            CommandLine::Insert(key, value_src) => {
                let value = match self.value_of(value_src.as_str(), numerals, time_quota) {
                    Ok(p) => p,
                    Err(e) => {
                        return Err(e);
                    },
                };
                let ghost g = self.heap@;
                dst.append(":");
                dst.append(key.as_str());
                dst.append(" ");
                match self.heap.quote(value, &mut dst) {
                    Ok(_) => {},
                    Err(e) => {
                        return Err(e);
                    },
                }
                let ghost name = key@;
                self.tab.insert(key, value);
                proof {
                    lemma_library_extends(h, g, lib);
                    let after = self.tab@;
                    assert forall|i: int| 0 <= i < after.len() implies g.live(
                        (#[trigger] after[i]).value,
                    ) by {
                        lemma_find_at(after, i);
                        if after[i].name != name {
                            lemma_find(lib, after[i].name);
                            let j = choose|j: int|
                                0 <= j < lib.len() && (#[trigger] lib[j]).name == after[i].name
                                    && lib[j].value == after[i].value;
                            assert(g.live(lib[j].value));
                        }
                    }
                    assert(bindings_of(g, after) =~= bindings.insert(name, g.term(value)));
                    assert(dst@ =~= seq![':'] + name + seq![' '] + text_of(g.term(value)));
                }
                self.collect();
                proof {
                    crate::heap::lemma_vacancy(self.heap@);
                }
                Ok(dst)
            },
            CommandLine::Delete(key) => {
                dst.append("~");
                dst.append(key.as_str());
                self.tab.remove(key.as_str());
                proof {
                    let after = self.tab@;
                    assert forall|i: int| 0 <= i < after.len() implies h.live(
                        (#[trigger] after[i]).value,
                    ) by {
                        lemma_find_at(after, i);
                        lemma_find(lib, after[i].name);
                        let j = choose|j: int|
                            0 <= j < lib.len() && (#[trigger] lib[j]).name == after[i].name
                                && lib[j].value == after[i].value;
                        assert(h.live(lib[j].value));
                    }
                    assert(bindings_of(h, after) =~= bindings.remove(key@));
                    assert(dst@ =~= seq!['~'] + key@);
                }
                self.collect();
                Ok(dst)
            },
            CommandLine::Eval => {
                let target = match self.value_of(src, numerals, time_quota) {
                    Ok(p) => p,
                    Err(e) => {
                        return Err(e);
                    },
                };
                let ghost g = self.heap@;
                match self.heap.quote(target, &mut dst) {
                    Ok(_) => {},
                    Err(e) => {
                        return Err(e);
                    },
                }
                proof {
                    lemma_library_extends(h, g, lib);
                    assert(dst@ =~= text_of(g.term(target)));
                }
                self.collect();
                Ok(dst)
            },
        }
    }

    /// The text of the dictionary: one line for each binding, in the order
    /// of the names.
    pub fn to_string(&self) -> (r: Result<String, Error>)
        requires
            self.wf(),
        ensures
            r is Ok,
            r->Ok_0@ == dump(self.heap(), self.library()),
    {
        let mut target = String::new();
        let ghost lib = self.tab@;
        let ghost h = self.heap@;
        let mut i: usize = 0;
        proof {
            reveal_strlit(":");
            reveal_strlit(" ");
            reveal_strlit("\n");
            assert(":"@ =~= seq![':']);
            assert(" "@ =~= seq![' ']);
            assert("\n"@ =~= seq!['\n']);
            assert(lib.take(0) =~= Seq::<Binding>::empty());
        }
        while i < self.tab.len()
            invariant
                i <= lib.len(),
                lib == self.tab@,
                h == self.heap@,
                h.wf(),
                library_closed(h, lib),
                ":"@ == seq![':'],
                " "@ == seq![' '],
                "\n"@ == seq!['\n'],
                target@ == dump(h, lib.take(i as int)),
            decreases lib.len() - i,
        {
            let ghost before = target@;
            proof {
                assert(lib.take(i + 1).drop_last() =~= lib.take(i as int));
                assert(lib.take(i + 1).last() == lib[i as int]);
                assert(h.live(lib[i as int].value));
            }
            target.append(":");
            target.append(self.tab.key_at(i));
            target.append(" ");
            match self.heap.quote(self.tab.value_at(i), &mut target) {
                Ok(_) => {},
                Err(_) => {},
            }
            target.append("\n");
            proof {
                assert(target@ =~= before + seq![':'] + lib[i as int].name + seq![' '] + text_of(
                    h.term(lib[i as int].value),
                ) + seq!['\n']);
            }
            i += 1;
        }
        proof {
            assert(lib.take(lib.len() as int) =~= lib);
        }
        Ok(target)
    }

    /// Loads the image of a session from a Markdown document: the code
    /// blocks that carry the marker are joined, and every line of the code
    /// that is not empty is carried out as a command, in a fresh session
    /// with a heap of the given capacity.  A command that fails ends the
    /// load with its error.
    ///
    /// The load succeeds where every line can be read and the heap has
    /// room for what all of them cost together.
    pub fn from_string(src: &str, numerals: &Vec<Numeral>, space_quota: usize, time_quota: u64)
        -> (r: Result<Pod, Error>)
        ensures
            match r {
                Ok(pod) => {
                    &&& pod.wf()
                    &&& pod.heap().capacity() == space_quota
                    &&& replay(
                        crate::command::lines_of(crate::feed::image_code(src@)),
                        numerals@,
                        time_quota as nat,
                    ) == Some(pod.bindings())
                },
                Err(e) => {
                    &&& (e == Error::Syntax || e == Error::Space)
                    &&& (e == Error::Syntax ==> replay(
                        crate::command::lines_of(crate::feed::image_code(src@)),
                        numerals@,
                        time_quota as nat,
                    ) is None)
                },
            },
            replay(
                crate::command::lines_of(crate::feed::image_code(src@)),
                numerals@,
                time_quota as nat,
            ) is Some && space_quota >= replay_cost(
                crate::command::lines_of(crate::feed::image_code(src@)),
                numerals@,
                time_quota as nat,
            ) ==> r is Ok,
    {
        let code = crate::feed::extract_code_blocks(src);
        Pod::from_code(code.as_str(), numerals, space_quota, time_quota)
    }

    /// Carries out every line of the code that is not empty as a command,
    /// in a fresh session with a heap of the given capacity.  A command
    /// that fails ends the load with its error.
    pub fn from_code(code: &str, numerals: &Vec<Numeral>, space_quota: usize, time_quota: u64)
        -> (r: Result<Pod, Error>)
        ensures
            match r {
                Ok(pod) => {
                    &&& pod.wf()
                    &&& pod.heap().capacity() == space_quota
                    &&& replay(crate::command::lines_of(code@), numerals@, time_quota as nat)
                        == Some(pod.bindings())
                },
                Err(e) => {
                    &&& (e == Error::Syntax || e == Error::Space)
                    &&& (e == Error::Syntax ==> replay(
                        crate::command::lines_of(code@),
                        numerals@,
                        time_quota as nat,
                    ) is None)
                },
            },
            replay(crate::command::lines_of(code@), numerals@, time_quota as nat) is Some
                && space_quota >= replay_cost(
                crate::command::lines_of(code@),
                numerals@,
                time_quota as nat,
            ) ==> r is Ok,
    {
        let all = crate::command::lines(code);
        let ghost lines = crate::command::lines_of(code@);
        let ghost quota = time_quota as nat;
        let mut pod = Pod::with_capacity(space_quota);
        let mut i: usize = 0;
        proof {
            assert(lines.take(0) =~= Seq::<Seq<char>>::empty());
            assert(bindings_of(pod.heap(), pod.library()) =~= Map::<Seq<char>, Term>::empty());
        }
        while i < all.len()
            invariant
                i <= all@.len(),
                crate::text::texts(all@) == lines,
                lines == crate::command::lines_of(code@),
                quota == time_quota as nat,
                pod.wf(),
                pod.heap().capacity() == space_quota,
                pod.heap().generation <= i,
                replay(lines.take(i as int), numerals@, quota) == Some(pod.bindings()),
                pod.heap().vacant() + replay_cost(lines.take(i as int), numerals@, quota)
                    >= space_quota,
            decreases all@.len() - i,
        {
            proof {
                assert(lines.take(i + 1).drop_last() =~= lines.take(i as int));
                assert(lines.take(i + 1).last() == lines[i as int]);
                assert(all@[i as int]@ == lines[i as int]);
                lemma_replay_prefix(lines, numerals@, quota, i + 1);
            }
            if all[i].as_str().unicode_len() > 0 {
                match pod.eval(all[i].as_str(), numerals, time_quota) {
                    Ok(_) => {},
                    Err(e) => {
                        proof {
                            if e == Error::Syntax {
                                lemma_replay_none(lines, numerals@, quota, i + 1);
                            }
                        }
                        return Err(e);
                    },
                }
            }
            i += 1;
        }
        proof {
            assert(lines.take(all@.len() as int) =~= lines);
        }
        Ok(pod)
    }

    /// Reads a body and reduces it, and returns a reference to the result.
    fn value_of(&mut self, body: &str, numerals: &Vec<Numeral>, time_quota: u64) -> (r: Result<
        Ptr,
        Error,
    >)
        requires
            old(self).wf(),
        ensures
            final(self).wf(),
            final(self).heap().extends(old(self).heap()),
            final(self).library() == old(self).library(),
            final(self).bindings() == old(self).bindings(),
            r is Ok <==> parse_text(body@, numerals@) is Some && old(self).heap().vacant()
                >= evaluate_cost(old(self).bindings(), body@, numerals@, time_quota as nat),
            match r {
                Ok(p) => {
                    &&& final(self).heap().live(p)
                    &&& Some(final(self).heap().term(p)) == evaluate(
                        old(self).bindings(),
                        body@,
                        numerals@,
                        time_quota as nat,
                    )
                    &&& final(self).heap().vacant() + evaluate_cost(
                        old(self).bindings(),
                        body@,
                        numerals@,
                        time_quota as nat,
                    ) == old(self).heap().vacant()
                },
                Err(e) => e == evaluate_error(body@, numerals@, old(self).heap().vacant()),
            },
    {
        let ghost h = self.heap@;
        let ghost lib = self.tab@;
        let source = match self.heap.parse(body, numerals) {
            Ok(p) => p,
            Err(e) => {
                proof {
                    lemma_library_extends(h, self.heap@, lib);
                }
                return Err(e);
            },
        };
        let ghost g = self.heap@;
        proof {
            lemma_library_extends(h, g, lib);
        }
        let r = reduce(source, &mut self.heap, &self.tab, time_quota);
        proof {
            lemma_extends_trans(h, g, self.heap@);
            lemma_library_extends(h, self.heap@, lib);
        }
        r
    }
}

/// Lines that cannot be replayed up to some point cannot be replayed.
pub proof fn lemma_replay_none(lines: Seq<Seq<char>>, table: Seq<Numeral>, quota: nat, k: int)
    requires
        0 <= k <= lines.len(),
        replay(lines.take(k), table, quota) is None,
    ensures
        replay(lines, table, quota) is None,
{
    lemma_replay_prefix(lines, table, quota, k);
}

} // verus!
