use vstd::prelude::*;
use crate::text::char_is_space;
use crate::text::char_is_word;
use crate::text::is_space;
use crate::text::is_word_char;
use crate::text::to_chars;

verus! {

/// What a line asks of a session.
pub enum Command {
    /// `:name body` binds `name` to what `body` reduces to.
    Insert(Seq<char>, Seq<char>),
    /// `~name` takes the binding of `name` away.
    Delete(Seq<char>),
    /// Anything else is a body to reduce.
    Eval(Seq<char>),
}

/// The end of the longest run of word characters that starts at `i`.
pub open spec fn word_run(s: Seq<char>, i: int) -> int
    decreases s.len() - i,
{
    if 0 <= i < s.len() && is_word_char(s[i]) {
        word_run(s, i + 1)
    } else {
        i
    }
}

/// The end of the longest run of white space that starts at `i`.
pub open spec fn space_run(s: Seq<char>, i: int) -> int
    decreases s.len() - i,
{
    if 0 <= i < s.len() && is_space(s[i]) {
        space_run(s, i + 1)
    } else {
        i
    }
}

/// The end of the line that holds position `i`: the first line feed from
/// `i` on, or the end of the text.
pub open spec fn line_end(s: Seq<char>, i: int) -> int
    decreases s.len() - i,
{
    if 0 <= i < s.len() && s[i] != '\n' {
        line_end(s, i + 1)
    } else {
        i
    }
}

/// The command that a line stands for.  A colon, a word and white space
/// begin an insertion, whose body is the rest of the text up to its first
/// line feed; a tilde and a word are a deletion, whatever follows the word;
/// every other line is a body.
pub open spec fn command_of(s: Seq<char>) -> Command {
    let w = word_run(s, 1);
    let b = space_run(s, w);
    if s.len() > 0 && s[0] == ':' && w > 1 && b > w {
        Command::Insert(s.subrange(1, w), s.subrange(b, line_end(s, b)))
    } else if s.len() > 0 && s[0] == '~' && w > 1 {
        Command::Delete(s.subrange(1, w))
    } else {
        Command::Eval(s)
    }
}

/// The runs end within the text, at or after their start.
pub proof fn lemma_runs(s: Seq<char>, i: int)
    requires
        0 <= i <= s.len(),
    ensures
        i <= word_run(s, i) <= s.len(),
        i <= space_run(s, i) <= s.len(),
        i <= line_end(s, i) <= s.len(),
        forall|k: int| i <= k < word_run(s, i) ==> is_word_char(#[trigger] s[k]),
    decreases s.len() - i,
{
    if i < s.len() {
        lemma_runs(s, i + 1);
    }
}

/// A command with its parts as texts.
pub enum CommandLine {
    Insert(String, String),
    Delete(String),
    Eval,
}

impl CommandLine {
    /// The command as a mathematical value, for the line `src` that it was
    /// read from.
    pub open spec fn spec_of(self, src: Seq<char>) -> Command {
        match self {
            CommandLine::Insert(name, body) => Command::Insert(name@, body@),
            CommandLine::Delete(name) => Command::Delete(name@),
            CommandLine::Eval => Command::Eval(src),
        }
    }
}

fn scan_words(chars: &Vec<char>, from: usize) -> (r: usize)
    requires
        from <= chars@.len(),
    ensures
        r == word_run(chars@, from as int),
        from <= r <= chars@.len(),
{
    let mut i = from;
    while i < chars.len() && char_is_word(chars[i])
        invariant
            from <= i <= chars@.len(),
            word_run(chars@, i as int) == word_run(chars@, from as int),
        decreases chars@.len() - i,
    {
        i += 1;
    }
    i
}

fn scan_spaces(chars: &Vec<char>, from: usize) -> (r: usize)
    requires
        from <= chars@.len(),
    ensures
        r == space_run(chars@, from as int),
        from <= r <= chars@.len(),
{
    let mut i = from;
    while i < chars.len() && char_is_space(chars[i])
        invariant
            from <= i <= chars@.len(),
            space_run(chars@, i as int) == space_run(chars@, from as int),
        decreases chars@.len() - i,
    {
        i += 1;
    }
    i
}

fn scan_line(chars: &Vec<char>, from: usize) -> (r: usize)
    requires
        from <= chars@.len(),
    ensures
        r == line_end(chars@, from as int),
        from <= r <= chars@.len(),
{
    let mut i = from;
    while i < chars.len() && chars[i] != '\n'
        invariant
            from <= i <= chars@.len(),
            line_end(chars@, i as int) == line_end(chars@, from as int),
        decreases chars@.len() - i,
    {
        i += 1;
    }
    i
}

/// Reads the command that a line stands for.
pub fn command(src: &str) -> (r: CommandLine)
    ensures
        r.spec_of(src@) == command_of(src@),
{
    let chars = to_chars(src);
    let n = chars.len();
    if n == 0 {
        return CommandLine::Eval;
    }
    let w = scan_words(&chars, 1);
    let b = scan_spaces(&chars, w);
    if chars[0] == ':' && w > 1 && b > w {
        let e = scan_line(&chars, b);
        let name = src.substring_char(1, w).to_owned();
        let body = src.substring_char(b, e).to_owned();
        CommandLine::Insert(name, body)
    } else if chars[0] == '~' && w > 1 {
        let name = src.substring_char(1, w).to_owned();
        CommandLine::Delete(name)
    } else {
        CommandLine::Eval
    }
}

/// A line without a carriage return at its end.
pub open spec fn strip_cr(line: Seq<char>) -> Seq<char> {
    if line.len() > 0 && line.last() == '\r' {
        line.drop_last()
    } else {
        line
    }
}

/// The lines of a text from position `i` on.  A line ends at a line feed,
/// which is no part of it, nor is a carriage return before the line feed;
/// what follows the last line feed is a line if it is not empty.
pub open spec fn lines_from(s: Seq<char>, i: int) -> Seq<Seq<char>>
    decreases s.len() - i,
{
    if i < 0 || i >= s.len() {
        Seq::empty()
    } else {
        proof {
            lemma_runs(s, i);
        }
        let e = line_end(s, i);
        if e < s.len() {
            seq![strip_cr(s.subrange(i, e))] + lines_from(s, e + 1)
        } else {
            seq![s.subrange(i, e)]
        }
    }
}

/// The lines of a text.
pub open spec fn lines_of(s: Seq<char>) -> Seq<Seq<char>> {
    lines_from(s, 0)
}

/// Splits a text into its lines.
pub fn lines(src: &str) -> (r: Vec<String>)
    ensures
        crate::text::texts(r@) == lines_of(src@),
{
    let chars = to_chars(src);
    let n = chars.len();
    let mut out: Vec<String> = Vec::new();
    let mut i: usize = 0;
    proof {
        assert(crate::text::texts(out@) + lines_from(src@, 0) =~= lines_from(src@, 0));
    }
    while i < n
        invariant
            i <= n,
            n == chars@.len(),
            chars@ == src@,
            crate::text::texts(out@) + lines_from(src@, i as int) == lines_of(src@),
        decreases n - i,
    {
        let e = scan_line(&chars, i);
        let ghost before = out@;
        if e < n {
            let stop = if e > i && chars[e - 1] == '\r' {
                e - 1
            } else {
                e
            };
            let line = src.substring_char(i, stop).to_owned();
            out.push(line);
            proof {
                let whole = src@.subrange(i as int, e as int);
                assert(src@.subrange(i as int, stop as int) =~= strip_cr(whole));
                assert(crate::text::texts(out@) =~= crate::text::texts(before) + seq![
                    strip_cr(whole),
                ]);
                assert(crate::text::texts(out@) + lines_from(src@, e + 1) =~= crate::text::texts(
                    before,
                ) + lines_from(src@, i as int));
            }
            i = e + 1;
        } else {
            let line = src.substring_char(i, e).to_owned();
            out.push(line);
            proof {
                assert(crate::text::texts(out@) =~= crate::text::texts(before) + seq![
                    src@.subrange(i as int, e as int),
                ]);
                assert(crate::text::texts(out@) + lines_from(src@, n as int)
                    =~= crate::text::texts(before) + lines_from(src@, i as int));
            }
            i = n;
        }
    }
    proof {
        assert(crate::text::texts(out@) + lines_from(src@, n as int) =~= crate::text::texts(out@));
    }
    out
}

} // verus!
