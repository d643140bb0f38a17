use sundial::check;
use sundial::eval;
use sundial::reduce;
use sundial::Error;
use sundial::Heap;
use sundial::Library;
use sundial::Thread;

fn quote(heap: &Heap, root: sundial::Ptr) -> String {
    let mut buf = String::new();
    heap.quote(root, &mut buf).unwrap();
    buf
}

fn run(src: &str, quota: u64) -> String {
    let mut heap = Heap::with_capacity(4096);
    let root = heap.parse(src, &Vec::new()).unwrap();
    let result = reduce(root, &mut heap, &Library::new(), quota).unwrap();
    quote(&heap, result)
}

#[test]
fn check_turns_false_into_an_error() {
    assert_eq!(check(Ok(true)), Ok(()));
    assert_eq!(check(Ok(false)), Err(Error::Assert));
    assert_eq!(check(Err(Error::Null)), Err(Error::Null));
}

#[test]
fn a_thread_holds_values_and_code() {
    let mut heap = Heap::with_capacity(64);
    let a = heap.new_word("a".to_string()).unwrap();
    let b = heap.new_word("b".to_string()).unwrap();
    let c = heap.new_word("c".to_string()).unwrap();
    let mut thread = Thread::with_continuation(a);
    assert_eq!(thread.has_continuation(), true);
    assert_eq!(thread.is_monadic(), false);
    assert_eq!(thread.is_dyadic(), false);
    assert_eq!(thread.pop_environment(), Err(Error::Underflow));
    assert_eq!(thread.peek_environment(), Err(Error::Underflow));
    thread.push_environment(b);
    assert_eq!(thread.is_monadic(), true);
    assert_eq!(thread.is_dyadic(), false);
    thread.push_environment(c);
    assert_eq!(thread.is_dyadic(), true);
    assert_eq!(thread.peek_environment(), Ok(c));
    assert_eq!(thread.pop_environment(), Ok(c));
    assert_eq!(thread.pop_environment(), Ok(b));
    assert_eq!(thread.pop_environment(), Err(Error::Underflow));
    thread.push_continuation_front(b);
    thread.push_continuation_back(c);
    assert_eq!(thread.pop_continuation(&mut heap), Ok(b));
    assert_eq!(thread.pop_continuation(&mut heap), Ok(a));
    assert_eq!(thread.pop_continuation(&mut heap), Ok(c));
    assert_eq!(thread.has_continuation(), false);
    assert_eq!(thread.pop_continuation(&mut heap), Err(Error::Underflow));
}

#[test]
fn a_fetch_takes_sequences_apart() {
    let mut heap = Heap::with_capacity(64);
    let root = heap.parse("a b c", &Vec::new()).unwrap();
    let mut thread = Thread::with_continuation(root);
    let a = thread.pop_continuation(&mut heap).unwrap();
    assert_eq!(heap.get_word(a), Ok("a".to_string()));
    let b = thread.pop_continuation(&mut heap).unwrap();
    assert_eq!(heap.get_word(b), Ok("b".to_string()));
    let rest = thread.get_continuation(&mut heap).unwrap();
    assert_eq!(quote(&heap, rest), "c");
    assert_eq!(thread.has_continuation(), false);
}

#[test]
fn what_got_stuck_comes_before_the_values() {
    let mut heap = Heap::with_capacity(64);
    let a = heap.new_word("a".to_string()).unwrap();
    let b = heap.new_word("b".to_string()).unwrap();
    let c = heap.new_word("c".to_string()).unwrap();
    let d = heap.new_word("d".to_string()).unwrap();
    let mut thread = Thread::with_continuation(a);
    thread.push_environment(b);
    thread.thunk(c);
    assert_eq!(thread.is_monadic(), false);
    thread.push_environment(d);
    let left = thread.get_environment(&mut heap).unwrap();
    assert_eq!(quote(&heap, left), "b c d");
    assert_eq!(thread.is_monadic(), false);
    let nothing = thread.get_environment(&mut heap).unwrap();
    assert_eq!(quote(&heap, nothing), "");
}

#[test]
fn a_frame_that_got_stuck_stays_a_scope() {
    let mut heap = Heap::with_capacity(64);
    let a = heap.new_word("a".to_string()).unwrap();
    let id = heap.new_id().unwrap();
    let body = heap.parse("[b] x", &Vec::new()).unwrap();
    let mut thread = Thread::with_continuation(id);
    thread.push_environment(a);
    thread.push_frame(body);
    let library = Library::new();
    while thread.has_continuation() {
        thread.step(&mut heap, &library).unwrap();
    }
    let left = thread.get_environment(&mut heap).unwrap();
    assert_eq!(quote(&heap, left), "a { [b] x }");
}

#[test]
fn a_frame_that_ran_through_hands_its_values_down() {
    assert_eq!(run("[a] { [b] [c] swap } [d]", 64), "[a] [c] [b] [d]");
    assert_eq!(run("[a] { [b] { x } [c] } [d]", 64), "[a] { [b] { x } [c] } [d]");
    assert_eq!(run("{ { { } } }", 64), "");
}

#[test]
fn steps_are_counted() {
    assert_eq!(run("[A] [B] swap", 0), "[A] [B] swap");
    assert_eq!(run("[A] [B] swap", 1), "[A] [B] swap");
    assert_eq!(run("[A] [B] swap", 2), "[A] [B] swap");
    assert_eq!(run("[A] [B] swap", 3), "[B] [A]");
    assert_eq!(run("[A] [B] swap", 4), "[B] [A]");
    assert_eq!(run("[A] [B] swap", 1000), "[B] [A]");
    assert_eq!(run("[A] app B", 2), "A B");
}

#[test]
fn a_run_can_be_taken_up_where_it_ended() {
    let src = "[[A] [B] swap] app [C] copy cat";
    for k in 0..12u64 {
        let mut heap = Heap::with_capacity(4096);
        let library = Library::new();
        let root = heap.parse(src, &Vec::new()).unwrap();
        let mut thread = Thread::with_continuation(root);
        let mut steps = 0;
        while steps < k && thread.has_continuation() {
            thread.step(&mut heap, &library).unwrap();
            steps += 1;
        }
        while steps < 12 && thread.has_continuation() {
            thread.step(&mut heap, &library).unwrap();
            steps += 1;
        }
        let left = thread.get_environment(&mut heap).unwrap();
        assert_eq!(quote(&heap, left), run(src, 12));
    }
    assert_eq!(run(src, 12), "[B] [A] [C C]");
}

#[test]
fn fix_ties_a_block_to_itself() {
    assert_eq!(run("[A] fix", 16), "[[A] fix A]");
    assert_eq!(run("[A] fix app", 16), "[[A] fix A] A");
    assert_eq!(run("[] fix", 16), "[[] fix]");
    assert_eq!(run("[drop] fix app", 16), "");
}

#[test]
fn combinators_get_stuck_on_what_is_no_block() {
    assert_eq!(run("x app", 16), "x app");
    assert_eq!(run("[A] x cat", 16), "[A] x cat");
    assert_eq!(run("(h) app", 16), "app");
    assert_eq!(run("[A] { } swap", 16), "[A] swap");
    assert_eq!(run("[A] shift", 16), "[A] shift");
    assert_eq!(run("{ shift }", 16), "{ shift }");
}

#[test]
fn reduction_reports_a_full_heap() {
    let mut heap = Heap::with_capacity(8);
    let root = heap.parse("[a] copy", &Vec::new()).unwrap();
    assert_eq!(reduce(root, &mut heap, &Library::new(), 16), Err(Error::Space));
    let mut heap = Heap::with_capacity(12);
    let root = heap.parse("[a] copy", &Vec::new()).unwrap();
    let result = reduce(root, &mut heap, &Library::new(), 16).unwrap();
    assert_eq!(quote(&heap, result), "[a] [a]");
}

#[test]
fn reduction_reports_a_stale_reference() {
    let mut heap = Heap::with_capacity(64);
    let root = heap.parse("[a] copy", &Vec::new()).unwrap();
    heap.sweep().unwrap();
    assert_eq!(reduce(root, &mut heap, &Library::new(), 16), Err(Error::Null));
}

#[test]
fn a_text_is_evaluated_in_one_call() {
    let mut target = String::from("=> ");
    assert_eq!(eval(&"[A] [B] swap".to_string(), &Vec::new(), &mut target, 64, 16), Ok(()));
    assert_eq!(target, "=> [B] [A]");
    let mut target = String::from("=> ");
    assert_eq!(eval(&"[A".to_string(), &Vec::new(), &mut target, 64, 16), Err(Error::Syntax));
    assert_eq!(target, "=> ");
    assert_eq!(eval(&"[A] [B] swap".to_string(), &Vec::new(), &mut target, 8, 16), Err(Error::Space));
    assert_eq!(target, "=> ");
}
