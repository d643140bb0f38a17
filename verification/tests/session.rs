use sundial::tokens;
use sundial::Error;
use sundial::Numeral;
use sundial::Pod;

fn numerals(src: &str) -> Vec<Numeral> {
    let mut table = Vec::new();
    for token in tokens(src) {
        if let Ok(value) = token.parse::<f64>() {
            if value.is_finite() {
                table.push(Numeral::new(token.clone(), value.to_bits(), value.to_string()));
            }
        }
    }
    table
}

fn eval(pod: &mut Pod, src: &str, quota: u64) -> Result<String, Error> {
    let table = numerals(src);
    pod.eval(src, &table, quota)
}

fn check(pod: &mut Pod, source: &str, expected: &str) {
    println!("{} => {}", source, expected);
    let target = eval(pod, source, 1024).unwrap();
    assert_eq!(expected, &target);
}

#[test]
fn pod_primitives() {
    let space = 1024;
    let time = 1024;
    let mut pod = Pod::from_string("", &Vec::new(), space, time).unwrap();
    check(&mut pod, "", "");
    check(&mut pod, "[A]", "[A]");
    check(&mut pod, "[[A]]", "[[A]]");
    check(&mut pod, "[A] [B]", "[A] [B]");
    check(&mut pod, "app", "app");
    check(&mut pod, "box", "box");
    check(&mut pod, "cat", "cat");
    check(&mut pod, "copy", "copy");
    check(&mut pod, "drop", "drop");
    check(&mut pod, "swap", "swap");
    check(&mut pod, "fix", "fix");
    check(&mut pod, "run", "run");
    check(&mut pod, "shift", "shift");
    check(&mut pod, "[A] app", "A");
    check(&mut pod, "[A] box", "[[A]]");
    check(&mut pod, "[A] [B] cat", "[A B]");
    check(&mut pod, "[A] cat", "[A] cat");
    check(&mut pod, "[A] copy", "[A] [A]");
    check(&mut pod, "[A] drop", "");
    check(&mut pod, "[A] [B] swap", "[B] [A]");
    check(&mut pod, "[A] swap", "[A] swap");
    check(&mut pod, "[A] fix", "[[A] fix A]");
    check(&mut pod, "{ E [F] shift K }", "{ [E] [K] F }");
    check(&mut pod, "E [F] shift K", "E [F] shift K");
    check(&mut pod, "[A] [B] box cat", "[A [B]]");
}

#[test]
fn rt_primitives() {
    let space = 1024;
    let time = 1024;
    let mut pod = Pod::from_string("", &Vec::new(), space, time).unwrap();
    check(&mut pod, "", "");
    check(&mut pod, "[A]", "[A]");
    check(&mut pod, "[[A]]", "[[A]]");
    check(&mut pod, "[A] [B]", "[A] [B]");
    check(&mut pod, "app", "app");
    check(&mut pod, "box", "box");
    check(&mut pod, "cat", "cat");
    check(&mut pod, "copy", "copy");
    check(&mut pod, "drop", "drop");
    check(&mut pod, "swap", "swap");
    check(&mut pod, "forall", "forall");
    check(&mut pod, "prop", "prop");
    check(&mut pod, "[A] app", "A");
    check(&mut pod, "[A] box", "[[A]]");
    check(&mut pod, "[A] [B] cat", "[A B]");
    check(&mut pod, "[A] cat", "[A] cat");
    check(&mut pod, "[A] copy", "[A] [A]");
    check(&mut pod, "[A] drop", "");
    check(&mut pod, "[A] [B] swap", "[B] [A]");
    check(&mut pod, "[A] swap", "[A] swap");
    check(&mut pod, "[A] [B] box cat", "[A [B]]");
    check(&mut pod, "[A] forall", "[A] forall");
    check(&mut pod, "[A] [B] forall", "[A] [B] forall");
    check(&mut pod, "[A] prop", "[A] prop");
}

#[test]
fn insertion_binds_a_name() {
    let mut pod = Pod::with_capacity(1024);
    check(&mut pod, ":i [app]", ":i [app]");
    assert_eq!(pod.to_string().unwrap(), ":i [app]\n");
    check(&mut pod, "[X] i", "[X] [app]");
    check(&mut pod, "[X] i app", "X");
}

#[test]
fn a_bound_word_gives_way_to_its_body() {
    let mut pod = Pod::with_capacity(1024);
    check(&mut pod, ":i app", ":i app");
    check(&mut pod, "[X] i", "X");
    check(&mut pod, ":w copy app", ":w copy app");
    check(&mut pod, "[X] w", "[X] X");
    check(&mut pod, ":w [copy app]", ":w [copy app]");
    check(&mut pod, "[X] w", "[X] [copy app]");
    check(&mut pod, "[X] w app", "[X] X");
}

#[test]
fn drop_discards_the_top() {
    let mut pod = Pod::with_capacity(1024);
    check(&mut pod, ":k [drop]", ":k [drop]");
    check(&mut pod, "[X] [Y] k app", "[X]");
    check(&mut pod, "[X] [Y] drop", "[X]");
}

#[test]
fn numbers_are_values() {
    let mut pod = Pod::with_capacity(1024);
    check(&mut pod, "[1] [2] cat app", "1 2");
    check(&mut pod, "[[1] [2] swap] app", "[2] [1]");
    check(&mut pod, "1 drop", "");
    check(&mut pod, "x drop", "x drop");
    check(&mut pod, "1.50 2e3 -0.0 .5", "1.5 2000 -0 0.5");
    check(&mut pod, "inf nan 1e999", "inf nan 1e999");
}

#[test]
fn deletion_unbinds_a_name() {
    let mut pod = Pod::with_capacity(1024);
    check(&mut pod, ":i app", ":i app");
    check(&mut pod, "[X] i", "X");
    check(&mut pod, "~i", "~i");
    check(&mut pod, "[X] i", "[X] i");
    check(&mut pod, "~i", "~i");
    assert_eq!(pod.to_string().unwrap(), "");
}

#[test]
fn dictionary_is_dumped_in_order() {
    let mut pod = Pod::with_capacity(1024);
    check(&mut pod, ":b [2]", ":b [2]");
    check(&mut pod, ":a [1]", ":a [1]");
    check(&mut pod, ":ab [3]", ":ab [3]");
    check(&mut pod, ":a [4]", ":a [4]");
    assert_eq!(pod.to_string().unwrap(), ":a [4]\n:ab [3]\n:b [2]\n");
}

#[test]
fn unbalanced_brackets_are_refused() {
    let mut pod = Pod::with_capacity(1024);
    assert_eq!(eval(&mut pod, "[a", 16), Err(Error::Syntax));
    assert_eq!(eval(&mut pod, "a]", 16), Err(Error::Syntax));
    assert_eq!(eval(&mut pod, "[a}", 16), Err(Error::Syntax));
    assert_eq!(eval(&mut pod, "{a]", 16), Err(Error::Syntax));
    assert_eq!(eval(&mut pod, ":x [a", 16), Err(Error::Syntax));
    check(&mut pod, "[a]{b}", "[a] { b }");
}

#[test]
fn a_full_heap_is_reported() {
    let mut pod = Pod::with_capacity(5);
    check(&mut pod, "a", "a");
    check(&mut pod, "a", "a");
    assert_eq!(eval(&mut pod, "a b c", 16), Err(Error::Space));
    assert_eq!(eval(&mut pod, "a", 16), Err(Error::Space));
    check(&mut pod, "~x", "~x");
    check(&mut pod, "a", "a");
    let mut small = Pod::with_capacity(4);
    assert_eq!(eval(&mut small, "a", 16), Err(Error::Space));
}

#[test]
fn garbage_is_swept_after_every_command() {
    let mut pod = Pod::with_capacity(32);
    for _ in 0..100 {
        check(&mut pod, "[A] [B] cat", "[A B]");
    }
    check(&mut pod, ":x [A] [B] cat", ":x [A B]");
    for _ in 0..100 {
        check(&mut pod, "x x cat", "[A B A B]");
    }
}

#[test]
fn quota_zero_returns_the_input() {
    let mut pod = Pod::with_capacity(1024);
    assert_eq!(eval(&mut pod, "[A]   [B]  swap", 0), Ok("[A] [B] swap".to_string()));
    assert_eq!(eval(&mut pod, "{ [A] app }", 0), Ok("{ [A] app }".to_string()));
}

#[test]
fn quota_bounds_the_steps() {
    let mut pod = Pod::with_capacity(1024);
    assert_eq!(eval(&mut pod, "[A] [B] swap", 2), Ok("[A] [B] swap".to_string()));
    assert_eq!(eval(&mut pod, "[A] [B] swap", 3), Ok("[B] [A]".to_string()));
    assert_eq!(eval(&mut pod, "[[A] fix app] fix app", 64).is_ok(), true);
}

#[test]
fn scopes_run_in_a_frame_of_their_own() {
    let mut pod = Pod::with_capacity(1024);
    check(&mut pod, "{ [A] [B] swap }", "[B] [A]");
    check(&mut pod, "[A] { swap }", "[A] { swap }");
    check(&mut pod, "[[A] [B]] run", "[A] [B]");
    check(&mut pod, "[C] [swap] run", "[C] { swap }");
    check(&mut pod, "{ [A] [drop] shift B C }", "[[A]]");
    check(&mut pod, "{ [A] [app] shift [B] [C] swap }", "[[A]] [C] [B]");
    check(&mut pod, "{ [A] [drop app] shift }", "[A]");
}

#[test]
fn hints_pass_through() {
    let mut pod = Pod::with_capacity(1024);
    check(&mut pod, "[A] (note) app", "A");
    check(&mut pod, "[(note) A]", "[(note) A]");
    check(&mut pod, "(Note)", "(Note)");
}

#[test]
fn image_is_replayed_line_by_line() {
    let image = "# Title\n\n```sundial\n:i app\n\n:two [1] [2]\n```\n\ntext\n\n```other\n:x y\n```\n\n```sundial\n:j i\n```\n";
    let table = numerals("1 2");
    let pod = Pod::from_string(image, &table, 1024, 1024).unwrap();
    assert_eq!(pod.to_string().unwrap(), ":i app\n:j app\n:two [1] [2]\n");
}

#[test]
fn image_with_a_bad_line_is_refused() {
    let image = "```sundial\n:i app\n:k [\n```\n";
    assert_eq!(Pod::from_string(image, &Vec::new(), 1024, 1024).is_err(), true);
    assert_eq!(Pod::from_code(":i app\n:k [\n", &Vec::new(), 1024, 1024).is_err(), true);
    assert_eq!(Pod::from_code(":i app\n:k [a]\n", &Vec::new(), 4, 1024).is_err(), true);
}

#[test]
fn a_session_counts_its_commands() {
    let mut pod = Pod::with_capacity(64);
    assert_eq!(pod.generation(), 0);
    check(&mut pod, "a", "a");
    check(&mut pod, "~a", "~a");
    assert_eq!(pod.generation(), 2);
    assert_eq!(eval(&mut pod, "[", 16), Err(Error::Syntax));
    assert_eq!(pod.generation(), 2);
}

#[test]
fn a_stuck_text_reduces_to_itself_again() {
    let mut pod = Pod::with_capacity(1024);
    for src in ["[A] swap [B]", "copy [A] drop", "x { y [A] } z", "[A] [B] cat box"] {
        let once = eval(&mut pod, src, 64).unwrap();
        let twice = eval(&mut pod, &once, 64).unwrap();
        assert_eq!(once, twice);
    }
}
