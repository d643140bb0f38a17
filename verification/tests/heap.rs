use sundial::Error;
use sundial::Heap;
use sundial::Opcode;

fn quote(heap: &Heap, root: sundial::Ptr) -> String {
    let mut buf = String::new();
    heap.quote(root, &mut buf).unwrap();
    buf
}

#[test]
fn allocation_fills_the_heap() {
    let mut heap = Heap::with_capacity(3);
    let a = heap.new_id().unwrap();
    let b = heap.new_block(a).unwrap();
    let c = heap.new_word("c".to_string()).unwrap();
    assert_ne!(a, b);
    assert_ne!(b, c);
    assert_eq!(heap.new_id(), Err(Error::Space));
    assert_eq!(heap.new_opcode(Opcode::App), Err(Error::Space));
    assert_eq!(heap.new_block(a), Err(Error::Space));
}

#[test]
fn a_full_heap_of_reachable_terms_stays_full() {
    let mut heap = Heap::with_capacity(3);
    let a = heap.new_id().unwrap();
    let b = heap.new_block(a).unwrap();
    let c = heap.new_arrow(b).unwrap();
    heap.mark(c).unwrap();
    heap.sweep().unwrap();
    assert_eq!(heap.new_id(), Err(Error::Space));
    assert_eq!(quote(&heap, c), "{ [] }");
}

#[test]
fn an_empty_heap_has_no_room() {
    let mut heap = Heap::with_capacity(0);
    assert_eq!(heap.new_id(), Err(Error::Space));
}

#[test]
fn sweep_keeps_what_the_roots_reach() {
    let mut heap = Heap::with_capacity(16);
    let a = heap.new_word("a".to_string()).unwrap();
    let id = heap.new_id().unwrap();
    let chain = heap.new_sequence(a, id).unwrap();
    let root = heap.new_block(chain).unwrap();
    let lost = heap.new_word("lost".to_string()).unwrap();
    let lost_block = heap.new_block(lost).unwrap();
    heap.mark(root).unwrap();
    heap.sweep().unwrap();
    assert_eq!(heap.generation(), 1);
    assert_eq!(heap.is_block(root), Ok(true));
    assert_eq!(heap.is_word(a), Ok(true));
    assert_eq!(heap.is_id(id), Ok(true));
    assert_eq!(heap.is_sequence(chain), Ok(true));
    assert_eq!(quote(&heap, root), "[a]");
    assert_eq!(heap.is_word(lost), Err(Error::Null));
    assert_eq!(heap.get_block_body(lost_block), Err(Error::Null));
    assert_eq!(heap.mark(lost), Err(Error::Null));
    let mut buf = String::from("kept");
    assert_eq!(heap.quote(lost_block, &mut buf), Err(Error::Null));
    assert_eq!(buf, "kept");
}

#[test]
fn a_slot_is_used_again_under_a_new_generation() {
    let mut heap = Heap::with_capacity(1);
    let old = heap.new_word("old".to_string()).unwrap();
    heap.sweep().unwrap();
    assert_eq!(heap.get_word(old), Err(Error::Null));
    let new = heap.new_word("new".to_string()).unwrap();
    assert_ne!(old, new);
    assert_eq!(heap.get_word(old), Err(Error::Null));
    assert_eq!(heap.get_word(new), Ok("new".to_string()));
    assert_eq!(heap.is_live(old), false);
    assert_eq!(heap.is_live(new), true);
}

#[test]
fn marks_last_for_one_sweep() {
    let mut heap = Heap::with_capacity(2);
    let a = heap.new_id().unwrap();
    heap.mark(a).unwrap();
    heap.mark(a).unwrap();
    heap.sweep().unwrap();
    assert_eq!(heap.is_id(a), Ok(true));
    heap.sweep().unwrap();
    assert_eq!(heap.is_id(a), Err(Error::Null));
    assert_eq!(heap.generation(), 2);
}

#[test]
fn a_stale_child_is_refused() {
    let mut heap = Heap::with_capacity(4);
    let a = heap.new_id().unwrap();
    heap.sweep().unwrap();
    assert_eq!(heap.new_block(a), Err(Error::Null));
    assert_eq!(heap.new_arrow(a), Err(Error::Null));
    let b = heap.new_id().unwrap();
    assert_eq!(heap.new_sequence(a, b), Err(Error::Null));
    assert_eq!(heap.new_sequence(b, a), Err(Error::Null));
    assert_eq!(heap.new_chain(&vec![b, a]), Err(Error::Null));
}

#[test]
fn fields_are_read_by_their_variant() {
    let mut heap = Heap::with_capacity(16);
    let id = heap.new_id().unwrap();
    let word = heap.new_word("w".to_string()).unwrap();
    let hint = heap.new_hint("h".to_string()).unwrap();
    let opcode = heap.new_opcode(Opcode::Swap).unwrap();
    let number = heap.new_number(1.5f64.to_bits(), "1.5".to_string()).unwrap();
    let block = heap.new_block(word).unwrap();
    let arrow = heap.new_arrow(hint).unwrap();
    let sequence = heap.new_sequence(word, hint).unwrap();
    assert_eq!(heap.get_word(word), Ok("w".to_string()));
    assert_eq!(heap.get_hint(hint), Ok("h".to_string()));
    assert_eq!(heap.get_opcode(opcode), Ok(Opcode::Swap));
    assert_eq!(heap.get_number(number), Ok(1.5f64.to_bits()));
    assert_eq!(heap.get_block_body(block), Ok(word));
    assert_eq!(heap.get_arrow_body(arrow), Ok(hint));
    assert_eq!(heap.get_sequence_fst(sequence), Ok(word));
    assert_eq!(heap.get_sequence_snd(sequence), Ok(hint));
    assert_eq!(heap.get_word(id), Err(Error::Tag));
    assert_eq!(heap.get_hint(word), Err(Error::Tag));
    assert_eq!(heap.get_opcode(word), Err(Error::Tag));
    assert_eq!(heap.get_number(word), Err(Error::Tag));
    assert_eq!(heap.get_block_body(arrow), Err(Error::Tag));
    assert_eq!(heap.get_arrow_body(block), Err(Error::Tag));
    assert_eq!(heap.get_sequence_fst(block), Err(Error::Tag));
    assert_eq!(heap.get_sequence_snd(id), Err(Error::Tag));
    assert_eq!(heap.is_id(id), Ok(true));
    assert_eq!(heap.is_id(word), Ok(false));
    assert_eq!(heap.is_word(word), Ok(true));
    assert_eq!(heap.is_hint(hint), Ok(true));
    assert_eq!(heap.is_opcode(opcode), Ok(true));
    assert_eq!(heap.is_number(number), Ok(true));
    assert_eq!(heap.is_block(block), Ok(true));
    assert_eq!(heap.is_arrow(arrow), Ok(true));
    assert_eq!(heap.is_sequence(sequence), Ok(true));
    assert_eq!(heap.is_sequence(block), Ok(false));
}

#[test]
fn sequences_are_built_in_normal_form() {
    let mut heap = Heap::with_capacity(64);
    let id = heap.new_id().unwrap();
    let a = heap.new_word("a".to_string()).unwrap();
    let b = heap.new_word("b".to_string()).unwrap();
    let c = heap.new_word("c".to_string()).unwrap();
    assert_eq!(heap.new_sequence(id, a), Ok(a));
    let ab = heap.new_sequence(a, b).unwrap();
    let abc = heap.new_sequence(ab, c).unwrap();
    assert_eq!(heap.get_sequence_fst(abc), Ok(a));
    let tail = heap.get_sequence_snd(abc).unwrap();
    assert_eq!(heap.get_sequence_fst(tail), Ok(b));
    assert_eq!(heap.get_sequence_snd(tail), Ok(c));
    assert_eq!(quote(&heap, abc), "a b c");
    let chain = heap.new_chain(&vec![a, id, ab, c]).unwrap();
    assert_eq!(quote(&heap, chain), "a a b c");
    let empty = heap.new_chain(&Vec::new()).unwrap();
    assert_eq!(heap.is_id(empty), Ok(true));
}

#[test]
fn a_sequence_costs_the_atoms_of_its_head() {
    let mut heap = Heap::with_capacity(4);
    let a = heap.new_word("a".to_string()).unwrap();
    let b = heap.new_word("b".to_string()).unwrap();
    let ab = heap.new_sequence(a, b).unwrap();
    assert_eq!(heap.new_sequence(ab, a), Err(Error::Space));
    let mut heap = Heap::with_capacity(6);
    let a = heap.new_word("a".to_string()).unwrap();
    let b = heap.new_word("b".to_string()).unwrap();
    let id = heap.new_id().unwrap();
    let ab = heap.new_sequence(a, b).unwrap();
    let aba = heap.new_sequence(ab, id).unwrap();
    assert_eq!(quote(&heap, aba), "a b");
    assert_eq!(heap.new_id(), Err(Error::Space));
}

#[test]
fn terms_are_quoted() {
    let mut heap = Heap::with_capacity(64);
    let id = heap.new_id().unwrap();
    assert_eq!(quote(&heap, id), "");
    let block = heap.new_block(id).unwrap();
    assert_eq!(quote(&heap, block), "[]");
    let arrow = heap.new_arrow(id).unwrap();
    assert_eq!(quote(&heap, arrow), "{  }");
    let hint = heap.new_hint("note".to_string()).unwrap();
    assert_eq!(quote(&heap, hint), "(note)");
    let number = heap.new_number(0.1f64.to_bits(), 0.1f64.to_string()).unwrap();
    assert_eq!(quote(&heap, number), "0.1");
    for (opcode, name) in [
        (Opcode::App, "app"),
        (Opcode::Box, "box"),
        (Opcode::Cat, "cat"),
        (Opcode::Copy, "copy"),
        (Opcode::Drop, "drop"),
        (Opcode::Swap, "swap"),
        (Opcode::Fix, "fix"),
        (Opcode::Run, "run"),
        (Opcode::Shift, "shift"),
    ] {
        let p = heap.new_opcode(opcode).unwrap();
        assert_eq!(quote(&heap, p), name);
    }
}

#[test]
fn a_node_is_read_as_it_was_written() {
    let mut heap = Heap::with_capacity(4);
    let word = heap.put(sundial::Object::Word("w".to_string())).unwrap();
    let block = heap.put(sundial::Object::Block(word)).unwrap();
    assert!(matches!(heap.get_ref(word), Ok(sundial::Object::Word(name)) if name == "w"));
    assert!(matches!(heap.get_ref(block), Ok(sundial::Object::Block(body)) if *body == word));
    heap.sweep().unwrap();
    assert!(matches!(heap.get_ref(word), Err(Error::Null)));
    assert_eq!(heap.put(sundial::Object::Arrow(block)), Err(Error::Null));
    assert_eq!(heap.all_live(&vec![word]), false);
    assert_eq!(heap.all_live(&Vec::new()), true);
}
