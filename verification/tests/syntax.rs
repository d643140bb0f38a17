use sundial::text::char_is_space;
use sundial::text::char_is_word;
use sundial::text::hint_of;
use sundial::text::opcode_of;
use sundial::tokens;
use sundial::Error;
use sundial::Heap;
use sundial::Numeral;
use sundial::Opcode;

fn table(src: &str) -> Vec<Numeral> {
    let mut table = Vec::new();
    for token in tokens(src) {
        if let Ok(value) = token.parse::<f64>() {
            let text = value.to_string();
            if text != token {
                table.push(Numeral::new(text.clone(), value.to_bits(), text.clone()));
            }
            table.push(Numeral::new(token.clone(), value.to_bits(), text));
        }
    }
    table
}

fn round_trip(src: &str) -> String {
    let mut heap = Heap::with_capacity(4096);
    let root = heap.parse(src, &table(src)).unwrap();
    let mut buf = String::new();
    heap.quote(root, &mut buf).unwrap();
    buf
}

#[test]
fn white_space_is_what_the_standard_library_says() {
    for code in 0..=0x10ffffu32 {
        if let Some(c) = char::from_u32(code) {
            assert_eq!(char_is_space(c), c.is_whitespace(), "{:x}", code);
        }
    }
}

#[test]
fn word_characters_are_those_of_the_grammar() {
    for c in "abcxyz0189+-*/<>!?=_.$;@".chars() {
        assert!(char_is_word(c), "{}", c);
    }
    for c in "ABZ()[]{} \n%&#,:~'\"\\^|`é".chars() {
        assert!(!char_is_word(c), "{}", c);
    }
}

#[test]
fn tokens_are_split_at_white_space_and_brackets() {
    assert_eq!(tokens(""), Vec::<String>::new());
    assert_eq!(tokens("  \n\t "), Vec::<String>::new());
    assert_eq!(tokens("a"), vec!["a"]);
    assert_eq!(tokens(" a  bc\td\n"), vec!["a", "bc", "d"]);
    assert_eq!(tokens("[a]{b}"), vec!["[", "a", "]", "{", "b", "}"]);
    assert_eq!(tokens("a[b"), vec!["a", "[", "b"]);
    assert_eq!(tokens("[[]]"), vec!["[", "[", "]", "]"]);
    assert_eq!(tokens("(a) é\u{3000}ü"), vec!["(a)", "é", "ü"]);
}

#[test]
fn tokens_are_those_of_padding_and_splitting() {
    let samples = [
        "",
        "a b c",
        "[a [b] c]{d}",
        "  [  ]  ",
        "x\u{a0}y\u{2003}z",
        "{[}]",
        ":k [drop]",
        "a]b[c}d{e",
        "\n\n[\n]\r\n",
    ];
    for src in samples {
        let padded = src
            .replace("{", " { ")
            .replace("}", " } ")
            .replace("[", " [ ")
            .replace("]", " ] ");
        let expected: Vec<String> = padded.split_whitespace().map(|x| x.to_string()).collect();
        assert_eq!(tokens(src), expected, "{:?}", src);
    }
}

#[test]
fn combinators_have_their_names() {
    assert_eq!(opcode_of("app"), Some(Opcode::App));
    assert_eq!(opcode_of("box"), Some(Opcode::Box));
    assert_eq!(opcode_of("cat"), Some(Opcode::Cat));
    assert_eq!(opcode_of("copy"), Some(Opcode::Copy));
    assert_eq!(opcode_of("drop"), Some(Opcode::Drop));
    assert_eq!(opcode_of("swap"), Some(Opcode::Swap));
    assert_eq!(opcode_of("fix"), Some(Opcode::Fix));
    assert_eq!(opcode_of("run"), Some(Opcode::Run));
    assert_eq!(opcode_of("shift"), Some(Opcode::Shift));
    assert_eq!(opcode_of("App"), None);
    assert_eq!(opcode_of("ap"), None);
    assert_eq!(opcode_of("apps"), None);
    assert_eq!(opcode_of(""), None);
    assert_eq!(opcode_of("a"), None);
}

#[test]
fn hints_are_words_in_round_brackets() {
    assert_eq!(hint_of("(a)"), Some("a".to_string()));
    assert_eq!(hint_of("(a-b.c)"), Some("a-b.c".to_string()));
    assert_eq!(hint_of("()"), None);
    assert_eq!(hint_of("(A)"), None);
    assert_eq!(hint_of("(a"), None);
    assert_eq!(hint_of("a)"), None);
    assert_eq!(hint_of("((a))"), None);
    assert_eq!(hint_of("(a)b"), None);
}

#[test]
fn parsing_builds_chains() {
    let mut heap = Heap::with_capacity(64);
    let root = heap.parse("a (h) [b] {c} swap", &Vec::new()).unwrap();
    let a = heap.get_sequence_fst(root).unwrap();
    assert_eq!(heap.get_word(a), Ok("a".to_string()));
    let rest = heap.get_sequence_snd(root).unwrap();
    let h = heap.get_sequence_fst(rest).unwrap();
    assert_eq!(heap.get_hint(h), Ok("h".to_string()));
    let rest = heap.get_sequence_snd(rest).unwrap();
    let block = heap.get_sequence_fst(rest).unwrap();
    let body = heap.get_block_body(block).unwrap();
    let b = heap.get_sequence_fst(body).unwrap();
    assert_eq!(heap.get_word(b), Ok("b".to_string()));
    assert_eq!(heap.is_id(heap.get_sequence_snd(body).unwrap()), Ok(true));
    let rest = heap.get_sequence_snd(rest).unwrap();
    let arrow = heap.get_sequence_fst(rest).unwrap();
    assert_eq!(heap.is_arrow(arrow), Ok(true));
    let rest = heap.get_sequence_snd(rest).unwrap();
    let swap = heap.get_sequence_fst(rest).unwrap();
    assert_eq!(heap.get_opcode(swap), Ok(Opcode::Swap));
    assert_eq!(heap.is_id(heap.get_sequence_snd(rest).unwrap()), Ok(true));
    let empty = heap.parse("  ", &Vec::new()).unwrap();
    assert_eq!(heap.is_id(empty), Ok(true));
}

#[test]
fn numbers_are_read_from_the_table() {
    let mut heap = Heap::with_capacity(64);
    let numerals = vec![
        Numeral::new("1.0".to_string(), 1.0f64.to_bits(), "1".to_string()),
        Numeral::new("inf".to_string(), f64::INFINITY.to_bits(), "inf".to_string()),
        Numeral::new("nan".to_string(), f64::NAN.to_bits(), "NaN".to_string()),
        Numeral::new("app".to_string(), 2.0f64.to_bits(), "2".to_string()),
    ];
    let root = heap.parse("1.0 1 inf nan app", &numerals).unwrap();
    let first = heap.get_sequence_fst(root).unwrap();
    assert_eq!(heap.get_number(first), Ok(1.0f64.to_bits()));
    let rest = heap.get_sequence_snd(root).unwrap();
    assert_eq!(heap.get_word(heap.get_sequence_fst(rest).unwrap()), Ok("1".to_string()));
    let rest = heap.get_sequence_snd(rest).unwrap();
    assert_eq!(heap.get_word(heap.get_sequence_fst(rest).unwrap()), Ok("inf".to_string()));
    let rest = heap.get_sequence_snd(rest).unwrap();
    assert_eq!(heap.get_word(heap.get_sequence_fst(rest).unwrap()), Ok("nan".to_string()));
    let rest = heap.get_sequence_snd(rest).unwrap();
    assert_eq!(heap.get_opcode(heap.get_sequence_fst(rest).unwrap()), Ok(Opcode::App));
    let mut buf = String::new();
    heap.quote(root, &mut buf).unwrap();
    assert_eq!(buf, "1 1 inf nan app");
}

#[test]
fn quoting_undoes_parsing_up_to_white_space() {
    assert_eq!(round_trip(""), "");
    assert_eq!(round_trip("a"), "a");
    assert_eq!(round_trip("  a   b\n\tc "), "a b c");
    assert_eq!(round_trip("[a[b]c]"), "[a [b] c]");
    assert_eq!(round_trip("{a}"), "{ a }");
    assert_eq!(round_trip("{}[]"), "{  } []");
    assert_eq!(round_trip("[ app (h) 1.50 ]"), "[app (h) 1.5]");
    assert_eq!(round_trip("{ [ { } ] }"), "{ [{  }] }");
    assert_eq!(round_trip("1e3 -0.0 +7 .5 5. 1e-7 1e21"), "1000 -0 7 0.5 5 0.0000001 1000000000000000000000");
}

#[test]
fn parsing_undoes_quoting() {
    let samples = [
        "",
        "a",
        "a b c",
        "[a [b] c] { d } app",
        "{  } [] (h) 1.5 -0 0.0000001",
        "[[A] fix A] swap",
    ];
    for src in samples {
        let once = round_trip(src);
        assert_eq!(once, src);
        assert_eq!(round_trip(&once), once);
    }
}

#[test]
fn brackets_must_match() {
    let mut heap = Heap::with_capacity(64);
    for src in ["[", "]", "{", "}", "[}", "{]", "[[]", "[]]", "[{]}", "a ] b", "[ a { b ]"] {
        assert_eq!(heap.parse(src, &Vec::new()), Err(Error::Syntax), "{:?}", src);
    }
    assert!(heap.parse("[{[]}{}]", &Vec::new()).is_ok());
}

#[test]
fn parsing_costs_two_nodes_for_a_token_and_three_for_a_scope() {
    for (src, cost) in [("", 1), ("a", 3), ("a b", 5), ("[]", 4), ("[a]", 6), ("{[a] b}", 11)] {
        let mut heap = Heap::with_capacity(cost);
        assert!(heap.parse(src, &Vec::new()).is_ok(), "{:?}", src);
        assert_eq!(heap.new_id(), Err(Error::Space));
        if cost > 0 {
            let mut heap = Heap::with_capacity(cost - 1);
            assert_eq!(heap.parse(src, &Vec::new()), Err(Error::Space), "{:?}", src);
        }
    }
}
