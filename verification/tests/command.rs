use regex::Regex;
use sundial::command::command;
use sundial::command::lines;
use sundial::command::CommandLine;
use sundial::feed::extract_code_blocks;
use sundial::feed::join_code_blocks;
use sundial::feed::CodeBlock;
use sundial::library::text_lt;
use sundial::Heap;
use sundial::Library;

const WORD_PATTERN: &str = r"[a-z0-9+\-*/<>!?=_.$;@]+";

const SAMPLES: [&str; 30] = [
    "",
    ":",
    "~",
    ":i [app]",
    ":i\t[app]\n",
    ":i  [app]\nrest",
    ":i\n[app]",
    ":i \n [app]\nmore",
    ":i",
    ":i ",
    ":i[app]",
    ": i [app]",
    ":I [app]",
    ":a-b.c/d x",
    ":a\u{a0}x",
    ":a\u{3000}\u{2003}x y",
    ":aB x",
    " :i [app]",
    "~i",
    "~i\n",
    "~i rest",
    "~i[x]",
    "~ i",
    "~I",
    "~+",
    "~a~b",
    "[X] i",
    "a :i b",
    ":é x",
    ":x é\u{2028}y",
];

#[test]
fn commands_are_those_of_the_patterns() {
    let insert = Regex::new(&format!(r"^:({})\s+(.*)", WORD_PATTERN)).unwrap();
    let delete = Regex::new(&format!(r"^~({})\s*", WORD_PATTERN)).unwrap();
    for src in SAMPLES {
        let found = command(src);
        if let Some(data) = insert.captures(src) {
            match found {
                CommandLine::Insert(name, body) => {
                    assert_eq!(name, data.get(1).unwrap().as_str(), "{:?}", src);
                    assert_eq!(body, data.get(2).unwrap().as_str(), "{:?}", src);
                }
                _ => panic!("{:?}", src),
            }
        } else if let Some(data) = delete.captures(src) {
            match found {
                CommandLine::Delete(name) => {
                    assert_eq!(name, data.get(1).unwrap().as_str(), "{:?}", src);
                }
                _ => panic!("{:?}", src),
            }
        } else {
            assert!(matches!(found, CommandLine::Eval), "{:?}", src);
        }
    }
}

#[test]
fn commands_are_read() {
    assert!(matches!(command(":i [app]"), CommandLine::Insert(name, body) if name == "i" && body == "[app]"));
    assert!(matches!(command(":k  a b \nc"), CommandLine::Insert(name, body) if name == "k" && body == "a b "));
    assert!(matches!(command("~i"), CommandLine::Delete(name) if name == "i"));
    assert!(matches!(command("~ab cd"), CommandLine::Delete(name) if name == "ab"));
    assert!(matches!(command("[X] i"), CommandLine::Eval));
    assert!(matches!(command(":i"), CommandLine::Eval));
    assert!(matches!(command(""), CommandLine::Eval));
}

#[test]
fn lines_are_those_of_the_standard_library() {
    let samples = [
        "",
        "a",
        "a\n",
        "a\nb",
        "a\n\nb\n",
        "\n",
        "\n\n",
        "a\r\nb\r\n",
        "a\rb\n",
        "a\r",
        "\r\n",
        "a\r\r\nb",
        ":i app\n\n:j i\n",
    ];
    for src in samples {
        let expected: Vec<String> = src.lines().map(|x| x.to_string()).collect();
        assert_eq!(lines(src), expected, "{:?}", src);
    }
}

#[test]
fn names_are_ordered_as_texts() {
    let samples = ["", "a", "ab", "b", "a-", "a0", "aa", "é", "z", "~", "\u{10000}", "\u{ffff}"];
    for a in samples {
        for b in samples {
            assert_eq!(text_lt(a, b), a < b, "{:?} {:?}", a, b);
        }
    }
}

#[test]
fn a_library_binds_names() {
    let mut heap = Heap::with_capacity(16);
    let one = heap.new_word("one".to_string()).unwrap();
    let two = heap.new_word("two".to_string()).unwrap();
    let mut library = Library::new();
    assert_eq!(library.len(), 0);
    assert_eq!(library.get("a"), None);
    library.insert("b".to_string(), one);
    library.insert("a".to_string(), two);
    library.insert("c".to_string(), one);
    assert_eq!(library.len(), 3);
    assert_eq!(library.get("a"), Some(two));
    assert_eq!(library.get("b"), Some(one));
    assert_eq!(library.get("c"), Some(one));
    assert_eq!(library.get("d"), None);
    assert_eq!(library.get(""), None);
    assert_eq!(library.key_at(0), "a");
    assert_eq!(library.key_at(1), "b");
    assert_eq!(library.key_at(2), "c");
    assert_eq!(library.value_at(0), two);
    library.insert("b".to_string(), two);
    assert_eq!(library.len(), 3);
    assert_eq!(library.get("b"), Some(two));
    library.remove("a");
    assert_eq!(library.len(), 2);
    assert_eq!(library.get("a"), None);
    assert_eq!(library.get("b"), Some(two));
    library.remove("a");
    assert_eq!(library.len(), 2);
    library.remove("c");
    library.remove("b");
    assert_eq!(library.len(), 0);
}

#[test]
fn code_blocks_are_taken_from_markdown() {
    assert_eq!(extract_code_blocks(""), "");
    assert_eq!(extract_code_blocks("no code"), "");
    assert_eq!(extract_code_blocks("```sundial\n:i app\n```\n"), ":i app\n");
    assert_eq!(extract_code_blocks("```other\n:i app\n```\n"), "");
    assert_eq!(extract_code_blocks("```\n:i app\n```\n"), "");
    assert_eq!(
        extract_code_blocks("```sundial\na\n```\n\n- item\n\n  ```sundial\n  b\n  ```\n\n```sundial\nc\n```\n"),
        "a\n\nb\n\nc\n"
    );
    assert_eq!(extract_code_blocks("    indented\n"), "");
}

#[test]
fn marked_blocks_are_joined_by_line_feeds() {
    let block = |info: &str, literal: &str| {
        Some(CodeBlock { info: info.to_string(), literal: literal.to_string() })
    };
    assert_eq!(join_code_blocks(&Vec::new()), "");
    assert_eq!(join_code_blocks(&vec![block("sundial", "a")]), "a");
    assert_eq!(join_code_blocks(&vec![block("rust", "a")]), "");
    assert_eq!(join_code_blocks(&vec![None, None]), "");
    assert_eq!(
        join_code_blocks(&vec![
            None,
            block("rust", "x"),
            block("sundial", "a\n"),
            None,
            block("", "y"),
            block("sundial", ""),
            block("Sundial", "z"),
            block("sundial", "b"),
        ]),
        "a\n\n\nb"
    );
}
