use vstd::prelude::*;
use crate::term::Opcode;

verus! {

/// Whether `c` is white space: a character with the Unicode property
/// `White_Space`.
pub open spec fn is_space(c: char) -> bool {
    let n = c as u32;
    (0x09 <= n && n <= 0x0d) || n == 0x20 || n == 0x85 || n == 0xa0 || n == 0x1680 || (0x2000 <= n
        && n <= 0x200a) || n == 0x2028 || n == 0x2029 || n == 0x202f || n == 0x205f || n == 0x3000
}

/// Whether `c` is one of the four brackets, each a token of its own.
pub open spec fn is_bracket(c: char) -> bool {
    c == '[' || c == ']' || c == '{' || c == '}'
}

/// Whether `c` ends the token before it.
pub open spec fn is_break(c: char) -> bool {
    is_space(c) || is_bracket(c)
}

/// Whether `c` may stand in a word of the dictionary: a lower-case letter, a
/// digit, or one of `+ - * / < > ! ? = _ . $ ; @`.
pub open spec fn is_word_char(c: char) -> bool {
    ('a' <= c && c <= 'z') || ('0' <= c && c <= '9') || c == '+' || c == '-' || c == '*' || c
        == '/' || c == '<' || c == '>' || c == '!' || c == '?' || c == '=' || c == '_' || c == '.'
        || c == '$' || c == ';' || c == '@'
}

/// Whether `s` is a word of the dictionary: one or more word characters.
pub open spec fn is_word(s: Seq<char>) -> bool {
    s.len() > 0 && forall|k: int| 0 <= k < s.len() ==> is_word_char(#[trigger] s[k])
}

/// Whether `c` is white space.
pub fn char_is_space(c: char) -> (r: bool)
    ensures
        r == is_space(c),
{
    let n: u32 = c as u32;
    (0x09 <= n && n <= 0x0d) || n == 0x20 || n == 0x85 || n == 0xa0 || n == 0x1680 || (0x2000 <= n
        && n <= 0x200a) || n == 0x2028 || n == 0x2029 || n == 0x202f || n == 0x205f || n == 0x3000
}

/// Whether `c` is a bracket.
pub fn char_is_bracket(c: char) -> (r: bool)
    ensures
        r == is_bracket(c),
{
    c == '[' || c == ']' || c == '{' || c == '}'
}

/// Whether `c` may stand in a word of the dictionary.
pub fn char_is_word(c: char) -> (r: bool)
    ensures
        r == is_word_char(c),
{
    ('a' <= c && c <= 'z') || ('0' <= c && c <= '9') || c == '+' || c == '-' || c == '*' || c
        == '/' || c == '<' || c == '>' || c == '!' || c == '?' || c == '=' || c == '_' || c == '.'
        || c == '$' || c == ';' || c == '@'
}

/// The characters of `s`.
pub fn to_chars(s: &str) -> (v: Vec<char>)
    ensures
        v@ == s@,
{
    let mut v: Vec<char> = Vec::new();
    for c in it: s.chars()
        invariant
            it.seq() == s@,
            v@ == it.seq().take(it.index()),
    {
        v.push(c);
    }
    v
}

/// The end of the token that holds position `i`: the first position from
/// `i` on that holds a break, or the end of the text.
pub open spec fn word_end(s: Seq<char>, i: int) -> int
    decreases s.len() - i,
{
    if i < 0 || i >= s.len() || is_break(s[i]) {
        i
    } else {
        word_end(s, i + 1)
    }
}

/// The tokens of `s` from position `i` on: white space separates tokens, a
/// bracket is a token by itself, and every other token is a longest run
/// of characters that are neither.
pub open spec fn tokens_from(s: Seq<char>, i: int) -> Seq<Seq<char>>
    decreases s.len() - i,
{
    if i < 0 || i >= s.len() {
        Seq::empty()
    } else if is_space(s[i]) {
        tokens_from(s, i + 1)
    } else if is_bracket(s[i]) {
        seq![s.subrange(i, i + 1)] + tokens_from(s, i + 1)
    } else {
        proof {
            lemma_word_end(s, i + 1);
        }
        seq![s.subrange(i, word_end(s, i + 1))] + tokens_from(s, word_end(s, i + 1))
    }
}

/// The tokens of `s`.
pub open spec fn tokens_of(s: Seq<char>) -> Seq<Seq<char>> {
    tokens_from(s, 0)
}

/// A token ends between its start and the end of the text, at a break or
/// at the end, and holds no break.
pub proof fn lemma_word_end(s: Seq<char>, i: int)
    requires
        0 <= i <= s.len(),
    ensures
        i <= word_end(s, i) <= s.len(),
        word_end(s, i) < s.len() ==> is_break(s[word_end(s, i)]),
        forall|k: int| i <= k < word_end(s, i) ==> !is_break(#[trigger] s[k]),
    decreases s.len() - i,
{
    if i < s.len() && !is_break(s[i]) {
        lemma_word_end(s, i + 1);
    }
}

/// The texts of the strings, in order.
pub open spec fn texts(v: Seq<String>) -> Seq<Seq<char>> {
    Seq::new(v.len(), |k: int| v[k]@)
}

/// Splits the source into its tokens.
pub fn tokens(src: &str) -> (r: Vec<String>)
    ensures
        texts(r@) == tokens_of(src@),
{
    let chars = to_chars(src);
    let n = chars.len();
    let mut out: Vec<String> = Vec::new();
    let mut i: usize = 0;
    proof {
        assert(texts(out@) =~= Seq::<Seq<char>>::empty());
        assert(texts(out@) + tokens_from(src@, 0) =~= tokens_from(src@, 0));
    }
    while i < n
        invariant
            i <= n,
            n == chars@.len(),
            chars@ == src@,
            texts(out@) + tokens_from(src@, i as int) == tokens_of(src@),
        decreases n - i,
    {
        let c = chars[i];
        if char_is_space(c) {
            i += 1;
        } else if char_is_bracket(c) {
            let ghost before = out@;
            let token = src.substring_char(i, i + 1).to_owned();
            out.push(token);
            proof {
                assert(texts(out@) =~= texts(before) + seq![src@.subrange(i as int, i + 1)]);
                assert(texts(out@) + tokens_from(src@, i + 1) =~= texts(before) + tokens_from(
                    src@,
                    i as int,
                ));
            }
            i += 1;
        } else {
            let start = i;
            let mut j: usize = i + 1;
            while j < n && !(char_is_space(chars[j]) || char_is_bracket(chars[j]))
                invariant
                    start < j <= n,
                    n == chars@.len(),
                    chars@ == src@,
                    word_end(src@, j as int) == word_end(src@, start + 1),
                decreases n - j,
            {
                j += 1;
            }
            let ghost before = out@;
            let token = src.substring_char(start, j).to_owned();
            out.push(token);
            proof {
                assert(word_end(src@, start + 1) == j);
                assert(texts(out@) =~= texts(before) + seq![src@.subrange(start as int, j as int)]);
                assert(texts(out@) + tokens_from(src@, j as int) =~= texts(before) + tokens_from(
                    src@,
                    start as int,
                ));
            }
            i = j;
        }
    }
    proof {
        assert(texts(out@) + tokens_from(src@, n as int) =~= texts(out@));
    }
    out
}

/// The name by which a combinator is written.
pub open spec fn opcode_name(opcode: Opcode) -> Seq<char> {
    match opcode {
        Opcode::App => seq!['a', 'p', 'p'],
        Opcode::Box => seq!['b', 'o', 'x'],
        Opcode::Cat => seq!['c', 'a', 't'],
        Opcode::Copy => seq!['c', 'o', 'p', 'y'],
        Opcode::Drop => seq!['d', 'r', 'o', 'p'],
        Opcode::Swap => seq!['s', 'w', 'a', 'p'],
        Opcode::Fix => seq!['f', 'i', 'x'],
        Opcode::Run => seq!['r', 'u', 'n'],
        Opcode::Shift => seq!['s', 'h', 'i', 'f', 't'],
    }
}

/// The combinator that a token names, if it names one.
pub open spec fn opcode_named(token: Seq<char>) -> Option<Opcode> {
    if token == opcode_name(Opcode::App) {
        Some(Opcode::App)
    } else if token == opcode_name(Opcode::Box) {
        Some(Opcode::Box)
    } else if token == opcode_name(Opcode::Cat) {
        Some(Opcode::Cat)
    } else if token == opcode_name(Opcode::Copy) {
        Some(Opcode::Copy)
    } else if token == opcode_name(Opcode::Drop) {
        Some(Opcode::Drop)
    } else if token == opcode_name(Opcode::Swap) {
        Some(Opcode::Swap)
    } else if token == opcode_name(Opcode::Fix) {
        Some(Opcode::Fix)
    } else if token == opcode_name(Opcode::Run) {
        Some(Opcode::Run)
    } else if token == opcode_name(Opcode::Shift) {
        Some(Opcode::Shift)
    } else {
        None
    }
}

/// The name of the hint that a token writes, if it writes one: a word
/// between round brackets.
pub open spec fn hint_named(token: Seq<char>) -> Option<Seq<char>> {
    if token.len() >= 3 && token[0] == '(' && token[token.len() - 1] == ')' && is_word(
        token.subrange(1, token.len() - 1),
    ) {
        Some(token.subrange(1, token.len() - 1))
    } else {
        None
    }
}

/// The name by which a combinator is written.
pub fn opcode_text(opcode: Opcode) -> (r: &'static str)
    ensures
        r@ == opcode_name(opcode),
{
    match opcode {
        Opcode::App => {
            proof {
                reveal_strlit("app");
            }
            assert("app"@ =~= opcode_name(Opcode::App));
            "app"
        },
        Opcode::Box => {
            proof {
                reveal_strlit("box");
            }
            assert("box"@ =~= opcode_name(Opcode::Box));
            "box"
        },
        Opcode::Cat => {
            proof {
                reveal_strlit("cat");
            }
            assert("cat"@ =~= opcode_name(Opcode::Cat));
            "cat"
        },
        Opcode::Copy => {
            proof {
                reveal_strlit("copy");
            }
            assert("copy"@ =~= opcode_name(Opcode::Copy));
            "copy"
        },
        Opcode::Drop => {
            proof {
                reveal_strlit("drop");
            }
            assert("drop"@ =~= opcode_name(Opcode::Drop));
            "drop"
        },
        Opcode::Swap => {
            proof {
                reveal_strlit("swap");
            }
            assert("swap"@ =~= opcode_name(Opcode::Swap));
            "swap"
        },
        Opcode::Fix => {
            proof {
                reveal_strlit("fix");
            }
            assert("fix"@ =~= opcode_name(Opcode::Fix));
            "fix"
        },
        Opcode::Run => {
            proof {
                reveal_strlit("run");
            }
            assert("run"@ =~= opcode_name(Opcode::Run));
            "run"
        },
        Opcode::Shift => {
            proof {
                reveal_strlit("shift");
            }
            assert("shift"@ =~= opcode_name(Opcode::Shift));
            "shift"
        },
    }
}

/// Whether two texts are the same.
pub fn same_text(a: &str, b: &str) -> (r: bool)
    ensures
        r == (a@ == b@),
{
    let x = to_chars(a);
    let y = to_chars(b);
    if x.len() != y.len() {
        return false;
    }
    let mut k: usize = 0;
    while k < x.len()
        invariant
            k <= x@.len(),
            x@.len() == y@.len(),
            x@ == a@,
            y@ == b@,
            forall|m: int| 0 <= m < k ==> x@[m] == y@[m],
        decreases x@.len() - k,
    {
        if x[k] != y[k] {
            return false;
        }
        k += 1;
    }
    proof {
        assert(x@ =~= y@);
    }
    true
}

/// The combinator that a token names, if it names one.
pub fn opcode_of(token: &str) -> (r: Option<Opcode>)
    ensures
        r == opcode_named(token@),
{
    if same_text(token, opcode_text(Opcode::App)) {
        Some(Opcode::App)
    } else if same_text(token, opcode_text(Opcode::Box)) {
        Some(Opcode::Box)
    } else if same_text(token, opcode_text(Opcode::Cat)) {
        Some(Opcode::Cat)
    } else if same_text(token, opcode_text(Opcode::Copy)) {
        Some(Opcode::Copy)
    } else if same_text(token, opcode_text(Opcode::Drop)) {
        Some(Opcode::Drop)
    } else if same_text(token, opcode_text(Opcode::Swap)) {
        Some(Opcode::Swap)
    } else if same_text(token, opcode_text(Opcode::Fix)) {
        Some(Opcode::Fix)
    } else if same_text(token, opcode_text(Opcode::Run)) {
        Some(Opcode::Run)
    } else if same_text(token, opcode_text(Opcode::Shift)) {
        Some(Opcode::Shift)
    } else {
        None
    }
}

/// The name of the hint that a token writes, if it writes one.
pub fn hint_of(token: &str) -> (r: Option<String>)
    ensures
        match r {
            Some(name) => hint_named(token@) == Some(name@),
            None => hint_named(token@) is None,
        },
{
    let chars = to_chars(token);
    let n = chars.len();
    if n < 3 || chars[0] != '(' || chars[n - 1] != ')' {
        return None;
    }
    let mut k: usize = 1;
    while k < n - 1
        invariant
            1 <= k <= n - 1,
            n == chars@.len(),
            chars@ == token@,
            forall|m: int| 1 <= m < k ==> is_word_char(#[trigger] chars@[m]),
        decreases n - k,
    {
        if !char_is_word(chars[k]) {
            proof {
                assert(token@.subrange(1, n - 1)[k - 1] == chars@[k as int]);
            }
            return None;
        }
        k += 1;
    }
    proof {
        assert forall|m: int| 0 <= m < token@.subrange(1, n - 1).len() implies is_word_char(
            #[trigger] token@.subrange(1, n - 1)[m],
        ) by {
            assert(is_word_char(chars@[m + 1]));
        }
    }
    Some(token.substring_char(1, n - 1).to_owned())
}

/// A number literal, read for the library by its caller: the token as it is
/// written, the IEEE-754 bit pattern of the value it stands for, and the
/// shortest decimal text that stands for the same value.
#[derive(Debug)]
pub struct Numeral {
    pub token: String,
    pub bits: u64,
    pub text: String,
}

impl Numeral {
    /// A literal that is written `token`, has the value with the bit pattern
    /// `bits`, and is rendered as `text`.
    pub fn new(token: String, bits: u64, text: String) -> (r: Numeral)
        ensures
            r.token == token,
            r.bits == bits,
            r.text == text,
    {
        Numeral { token: token, bits: bits, text: text }
    }
}

/// Whether `bits` is the pattern of a finite number: its exponent is not
/// the one kept for infinities and for what is not a number.
pub open spec fn is_finite(bits: u64) -> bool {
    (bits >> 52u64) & 0x7ffu64 != 0x7ffu64
}

/// Whether `bits` is the pattern of a finite number.
pub fn bits_are_finite(bits: u64) -> (r: bool)
    ensures
        r == is_finite(bits),
{
    (bits >> 52u64) & 0x7ffu64 != 0x7ffu64
}

/// The first literal of the table that is written `token` and is finite.
pub open spec fn read_number(table: Seq<Numeral>, token: Seq<char>) -> Option<Numeral>
    decreases table.len(),
{
    if table.len() == 0 {
        None
    } else if table[0].token@ == token && is_finite(table[0].bits) {
        Some(table[0])
    } else {
        read_number(table.drop_first(), token)
    }
}

/// Looks a token up in the table of number literals: the index of the
/// first literal that is written so and is finite.
pub fn number_of(table: &Vec<Numeral>, token: &String) -> (r: Option<usize>)
    ensures
        match r {
            Some(k) => k < table@.len() && read_number(table@, token@) == Some(table@[k as int]),
            None => read_number(table@, token@) is None,
        },
{
    let mut k: usize = 0;
    proof {
        assert(table@.skip(0) =~= table@);
    }
    while k < table.len()
        invariant
            k <= table@.len(),
            read_number(table@, token@) == read_number(table@.skip(k as int), token@),
        decreases table@.len() - k,
    {
        proof {
            assert(table@.skip(k as int).drop_first() =~= table@.skip(k + 1));
        }
        if table[k].token == *token && bits_are_finite(table[k].bits) {
            return Some(k);
        }
        k += 1;
    }
    None
}

} // verus!
