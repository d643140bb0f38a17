use vstd::prelude::*;
use crate::heap::Ptr;
use crate::text::to_chars;

verus! {

/// Whether `a` comes before `b` in the order of the dictionary: character by
/// character, a text before every longer text that begins with it.
pub open spec fn lex_lt(a: Seq<char>, b: Seq<char>) -> bool
    decreases a.len(),
{
    if b.len() == 0 {
        false
    } else if a.len() == 0 {
        true
    } else if a[0] < b[0] {
        true
    } else if a[0] > b[0] {
        false
    } else {
        lex_lt(a.drop_first(), b.drop_first())
    }
}

/// No text comes before itself, and of two texts in order the second does
/// not come before the first.
pub proof fn lemma_lex_asymmetric(a: Seq<char>, b: Seq<char>)
    ensures
        !(lex_lt(a, b) && lex_lt(b, a)),
        !lex_lt(a, a),
    decreases a.len(),
{
    if a.len() > 0 && b.len() > 0 && a[0] == b[0] {
        lemma_lex_asymmetric(a.drop_first(), b.drop_first());
    }
    if a.len() > 0 {
        lemma_lex_asymmetric(a.drop_first(), a.drop_first());
    }
}

/// Of two different texts one comes before the other.
pub proof fn lemma_lex_total(a: Seq<char>, b: Seq<char>)
    ensures
        a == b || lex_lt(a, b) || lex_lt(b, a),
    decreases a.len(),
{
    if a.len() > 0 && b.len() > 0 {
        if a[0] == b[0] {
            lemma_lex_total(a.drop_first(), b.drop_first());
            if a.drop_first() == b.drop_first() {
                assert(a[0] == b[0]);
                assert(a =~= seq![a[0]] + a.drop_first());
                assert(b =~= seq![b[0]] + b.drop_first());
            }
        }
    } else if a.len() == 0 && b.len() == 0 {
        assert(a =~= b);
    }
}

/// The order of the dictionary is transitive.
pub proof fn lemma_lex_trans(a: Seq<char>, b: Seq<char>, c: Seq<char>)
    requires
        lex_lt(a, b),
        lex_lt(b, c),
    ensures
        lex_lt(a, c),
    decreases a.len(),
{
    if a.len() > 0 && b.len() > 0 && c.len() > 0 {
        if a[0] == b[0] && b[0] == c[0] {
            lemma_lex_trans(a.drop_first(), b.drop_first(), c.drop_first());
        }
    }
}

/// Whether `a` comes before `b` in the order of the dictionary.
pub fn text_lt(a: &str, b: &str) -> (r: bool)
    ensures
        r == lex_lt(a@, b@),
{
    let x = to_chars(a);
    let y = to_chars(b);
    let mut k: usize = 0;
    proof {
        assert(x@.skip(0) =~= x@);
        assert(y@.skip(0) =~= y@);
    }
    while k < x.len() && k < y.len()
        invariant
            k <= x@.len(),
            k <= y@.len(),
            x@ == a@,
            y@ == b@,
            lex_lt(a@, b@) == lex_lt(x@.skip(k as int), y@.skip(k as int)),
        decreases x@.len() - k,
    {
        proof {
            assert(x@.skip(k as int).drop_first() =~= x@.skip(k + 1));
            assert(y@.skip(k as int).drop_first() =~= y@.skip(k + 1));
            assert(x@.skip(k as int)[0] == x@[k as int]);
            assert(y@.skip(k as int)[0] == y@[k as int]);
        }
        let p: char = x[k];
        let q: char = y[k];
        if p < q {
            return true;
        }
        if p > q {
            return false;
        }
        k += 1;
    }
    k < y.len()
}

/// A name and the term that it is bound to.
pub struct Binding {
    pub name: Seq<char>,
    pub value: Ptr,
}

/// What `name` is bound to among the bindings, if it is bound.
pub open spec fn find(bindings: Seq<Binding>, name: Seq<char>) -> Option<Ptr>
    decreases bindings.len(),
{
    if bindings.len() == 0 {
        None
    } else if bindings[0].name == name {
        Some(bindings[0].value)
    } else {
        find(bindings.drop_first(), name)
    }
}

/// Whether the bindings stand in the order of the dictionary, each name
/// once.
pub open spec fn sorted(bindings: Seq<Binding>) -> bool {
    forall|i: int, j: int|
        0 <= i < j < bindings.len() ==> lex_lt(
            (#[trigger] bindings[i]).name,
            (#[trigger] bindings[j]).name,
        )
}

/// A name is bound exactly when one of the bindings has it, and then to
/// the value of the first of them.
pub proof fn lemma_find(bindings: Seq<Binding>, name: Seq<char>)
    ensures
        match find(bindings, name) {
            Some(value) => exists|i: int|
                0 <= i < bindings.len() && (#[trigger] bindings[i]).name == name && bindings[i].value
                    == value,
            None => forall|i: int| 0 <= i < bindings.len() ==> (#[trigger] bindings[i]).name != name,
        },
    decreases bindings.len(),
{
    if bindings.len() > 0 && bindings[0].name != name {
        lemma_find(bindings.drop_first(), name);
        match find(bindings.drop_first(), name) {
            Some(value) => {
                let i = choose|i: int|
                    0 <= i < bindings.drop_first().len() && (#[trigger] bindings.drop_first()[i]).name
                        == name && bindings.drop_first()[i].value == value;
                assert(bindings[i + 1].name == name);
            },
            None => {
                assert forall|i: int| 0 <= i < bindings.len() implies (#[trigger] bindings[i]).name
                    != name by {
                    if i > 0 {
                        assert(bindings.drop_first()[i - 1].name != name);
                    }
                }
            },
        }
    } else if bindings.len() > 0 {
        assert(bindings[0].name == name);
    }
}

/// In sorted bindings a name is bound to the value of the one binding
/// that has it.
pub proof fn lemma_find_at(bindings: Seq<Binding>, i: int)
    requires
        sorted(bindings),
        0 <= i < bindings.len(),
    ensures
        find(bindings, bindings[i].name) == Some(bindings[i].value),
{
    lemma_find(bindings, bindings[i].name);
    match find(bindings, bindings[i].name) {
        Some(value) => {
            let j = choose|j: int|
                0 <= j < bindings.len() && (#[trigger] bindings[j]).name == bindings[i].name
                    && bindings[j].value == value;
            lemma_lex_asymmetric(bindings[i].name, bindings[j].name);
            if i < j {
                assert(lex_lt(bindings[i].name, bindings[j].name));
            } else if j < i {
                assert(lex_lt(bindings[j].name, bindings[i].name));
            }
        },
        None => {
            assert(bindings[i].name == bindings[i].name);
        },
    }
}

/// In sorted bindings a name that does not stand at the first position
/// whose name does not come before it is not bound.
pub proof fn lemma_find_none(bindings: Seq<Binding>, name: Seq<char>, index: int)
    requires
        sorted(bindings),
        0 <= index <= bindings.len(),
        forall|i: int| 0 <= i < index ==> lex_lt((#[trigger] bindings[i]).name, name),
        index < bindings.len() ==> !lex_lt(bindings[index].name, name) && bindings[index].name
            != name,
    ensures
        find(bindings, name) is None,
{
    lemma_find(bindings, name);
    assert forall|i: int| 0 <= i < bindings.len() implies (#[trigger] bindings[i]).name
        != name by {
        lemma_lex_asymmetric(bindings[i].name, name);
        if i > index {
            assert(lex_lt(bindings[index].name, bindings[i].name));
        }
    }
}

/// An entry of the dictionary.
pub struct Entry {
    pub(crate) key: String,
    pub(crate) value: Ptr,
}

/// The dictionary of a session: names bound to terms, kept in the order
/// of the names.
pub struct Library {
    pub(crate) entries: Vec<Entry>,
}

impl View for Library {
    type V = Seq<Binding>;

    closed spec fn view(&self) -> Seq<Binding> {
        Seq::new(
            self.entries@.len(),
            |i: int| Binding { name: self.entries@[i].key@, value: self.entries@[i].value },
        )
    }
}

impl Library {
    /// The invariant of a dictionary: its bindings are sorted.
    pub open spec fn wf(&self) -> bool {
        sorted(self@)
    }

    /// An empty dictionary.
    pub fn new() -> (r: Library)
        ensures
            r.wf(),
            r@.len() == 0,
    {
        Library { entries: Vec::new() }
    }

    /// The number of bindings.
    pub fn len(&self) -> (r: usize)
        ensures
            r == self@.len(),
    {
        self.entries.len()
    }

    /// The value of the binding at `index`.
    pub fn value_at(&self, index: usize) -> (r: Ptr)
        requires
            index < self@.len(),
        ensures
            r == self@[index as int].value,
    {
        self.entries[index].value
    }

    /// The name of the binding at `index`.
    pub fn key_at(&self, index: usize) -> (r: &str)
        requires
            index < self@.len(),
        ensures
            r@ == self@[index as int].name,
    {
        self.entries[index].key.as_str()
    }

    /// The first position whose name does not come before `key`.
    fn position(&self, key: &str) -> (r: usize)
        ensures
            r <= self@.len(),
            forall|i: int| 0 <= i < r ==> lex_lt((#[trigger] self@[i]).name, key@),
            r < self@.len() ==> !lex_lt(self@[r as int].name, key@),
    {
        let mut index: usize = 0;
        while index < self.entries.len()
            invariant
                index <= self@.len(),
                self@.len() == self.entries@.len(),
                forall|i: int| 0 <= i < index ==> lex_lt((#[trigger] self@[i]).name, key@),
            decreases self@.len() - index,
        {
            if !text_lt(self.entries[index].key.as_str(), key) {
                return index;
            }
            index += 1;
        }
        index
    }

    /// What `key` is bound to, if it is bound.
    pub fn get(&self, key: &str) -> (r: Option<Ptr>)
        requires
            self.wf(),
        ensures
            r == find(self@, key@),
    {
        let index = self.position(key);
        proof {
            lemma_find(self@, key@);
            if index < self@.len() {
                lemma_find_at(self@, index as int);
            }
        }
        if index < self.entries.len() && crate::text::same_text(
            self.entries[index].key.as_str(),
            key,
        ) {
            Some(self.entries[index].value)
        } else {
            proof {
                lemma_find_none(self@, key@, index as int);
            }
            None
        }
    }

    /// Binds `key` to `value`; an earlier binding of `key` is replaced.
    pub fn insert(&mut self, key: String, value: Ptr)
        requires
            old(self).wf(),
        ensures
            final(self).wf(),
            forall|name: Seq<char>|
                #[trigger] find(final(self)@, name) == if name == key@ {
                    Some(value)
                } else {
                    find(old(self)@, name)
                },
            final(self)@.len() == if find(old(self)@, key@) is Some {
                old(self)@.len()
            } else {
                old(self)@.len() + 1
            },
    {
        let index = self.position(key.as_str());
        let ghost before = self@;
        let ghost name0 = key@;
        proof {
            lemma_find(before, name0);
            if index < before.len() {
                lemma_find_at(before, index as int);
                lemma_lex_total(before[index as int].name, name0);
            }
        }
        let replace = index < self.entries.len() && crate::text::same_text(
            self.entries[index].key.as_str(),
            key.as_str(),
        );
        if replace {
            self.entries.set(index, Entry { key: key, value: value });
            proof {
                assert(self@ =~= before.update(
                    index as int,
                    Binding { name: name0, value: value },
                ));
                assert forall|i: int, j: int| 0 <= i < j < self@.len() implies lex_lt(
                    (#[trigger] self@[i]).name,
                    (#[trigger] self@[j]).name,
                ) by {
                    assert(lex_lt(before[i].name, before[j].name));
                }
            }
        } else {
            proof {
                lemma_find_none(before, name0, index as int);
            }
            self.entries.insert(index, Entry { key: key, value: value });
            proof {
                assert(self@ =~= before.insert(index as int, Binding { name: name0, value: value }));
                assert forall|i: int| index <= i < before.len() implies lex_lt(
                    name0,
                    (#[trigger] before[i]).name,
                ) by {
                    if i > index {
                        assert(lex_lt(before[index as int].name, before[i].name));
                        lemma_lex_trans(name0, before[index as int].name, before[i].name);
                    }
                }
                assert forall|i: int, j: int| 0 <= i < j < self@.len() implies lex_lt(
                    (#[trigger] self@[i]).name,
                    (#[trigger] self@[j]).name,
                ) by {
                    if i < index && j > index {
                        assert(lex_lt(before[i].name, name0));
                        assert(lex_lt(name0, before[j - 1].name));
                        lemma_lex_trans(before[i].name, name0, before[j - 1].name);
                    } else if i < index && j < index {
                        assert(lex_lt(before[i].name, before[j].name));
                    } else if i > index {
                        assert(lex_lt(before[i - 1].name, before[j - 1].name));
                    } else if i == index {
                        assert(lex_lt(name0, before[j - 1].name));
                    }
                }
            }
        }
        proof {
            let after = self@;
            assert forall|name: Seq<char>|
                #[trigger] find(after, name) == if name == name0 {
                    Some(value)
                } else {
                    find(before, name)
                } by {
                lemma_find(after, name);
                lemma_find(before, name);
                lemma_find_at(after, index as int);
                if name != name0 {
                    match find(before, name) {
                        Some(v) => {
                            let i = choose|i: int|
                                0 <= i < before.len() && (#[trigger] before[i]).name == name
                                    && before[i].value == v;
                            lemma_find_at(before, i);
                            let i2 = if replace || i < index {
                                i
                            } else {
                                i + 1
                            };
                            assert(after[i2].name == name && after[i2].value == v);
                            lemma_find_at(after, i2);
                        },
                        None => {
                            if find(after, name) is Some {
                                let i = choose|i: int|
                                    0 <= i < after.len() && (#[trigger] after[i]).name == name;
                                let i0 = if replace || i < index {
                                    i
                                } else {
                                    i - 1
                                };
                                assert(before[i0].name == name);
                            }
                        },
                    }
                }
            }
        }
    }

    /// Removes the binding of `key`, if there is one.
    pub fn remove(&mut self, key: &str)
        requires
            old(self).wf(),
        ensures
            final(self).wf(),
            forall|name: Seq<char>|
                #[trigger] find(final(self)@, name) == if name == key@ {
                    None
                } else {
                    find(old(self)@, name)
                },
            final(self)@.len() == if find(old(self)@, key@) is Some {
                old(self)@.len() - 1
            } else {
                old(self)@.len() as int
            },
    {
        let index = self.position(key);
        let ghost before = self@;
        let ghost name0 = key@;
        proof {
            lemma_find(before, name0);
            if index < before.len() {
                lemma_find_at(before, index as int);
                lemma_lex_total(before[index as int].name, name0);
            }
        }
        let found = index < self.entries.len() && crate::text::same_text(
            self.entries[index].key.as_str(),
            key,
        );
        if found {
            self.entries.remove(index);
            proof {
                assert(self@ =~= before.remove(index as int));
                assert forall|i: int, j: int| 0 <= i < j < self@.len() implies lex_lt(
                    (#[trigger] self@[i]).name,
                    (#[trigger] self@[j]).name,
                ) by {
                    let i0 = if i < index {
                        i
                    } else {
                        i + 1
                    };
                    let j0 = if j < index {
                        j
                    } else {
                        j + 1
                    };
                    assert(lex_lt(before[i0].name, before[j0].name));
                }
            }
        } else {
            proof {
                lemma_find_none(before, name0, index as int);
            }
        }
        proof {
            let after = self@;
            assert forall|name: Seq<char>|
                #[trigger] find(after, name) == if name == name0 {
                    None
                } else {
                    find(before, name)
                } by {
                lemma_find(after, name);
                lemma_find(before, name);
                if name == name0 {
                    if find(after, name) is Some {
                        let i = choose|i: int|
                            0 <= i < after.len() && (#[trigger] after[i]).name == name;
                        let i0 = if !found || i < index {
                            i
                        } else {
                            i + 1
                        };
                        assert(before[i0].name == name0);
                        if found {
                            lemma_lex_asymmetric(before[i0].name, before[index as int].name);
                            if i0 < index {
                                assert(lex_lt(before[i0].name, before[index as int].name));
                            } else {
                                assert(lex_lt(before[index as int].name, before[i0].name));
                            }
                        }
                    }
                } else {
                    match find(before, name) {
                        Some(v) => {
                            let i = choose|i: int|
                                0 <= i < before.len() && (#[trigger] before[i]).name == name
                                    && before[i].value == v;
                            lemma_find_at(before, i);
                            let i2 = if !found || i < index {
                                i
                            } else {
                                i - 1
                            };
                            assert(after[i2].name == name && after[i2].value == v);
                            lemma_find_at(after, i2);
                        },
                        None => {
                            if find(after, name) is Some {
                                let i = choose|i: int|
                                    0 <= i < after.len() && (#[trigger] after[i]).name == name;
                                let i0 = if !found || i < index {
                                    i
                                } else {
                                    i + 1
                                };
                                assert(before[i0].name == name);
                            }
                        },
                    }
                }
            }
        }
    }
}

} // verus!
