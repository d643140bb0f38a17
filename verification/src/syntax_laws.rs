use vstd::prelude::*;
use crate::syntax::Level;
use crate::syntax::atom;
use crate::syntax::closes;
use crate::syntax::opens;
use crate::syntax::parse_cost;
use crate::syntax::parse_need;
use crate::syntax::parse_text;
use crate::syntax::parse_tokens;
use crate::syntax::text_of;
use crate::syntax::wrap;
use crate::term::Term;
use crate::term::cat;
use crate::term::chain;
use crate::text::Numeral;
use crate::text::is_break;
use crate::text::is_space;
use crate::text::hint_named;
use crate::text::opcode_name;
use crate::text::opcode_named;
use crate::text::read_number;
use crate::text::tokens_of;
use crate::text_laws::lemma_tokens_are_tokens;
use crate::text_laws::is_token;
use crate::text_laws::lemma_tokens_add;
use crate::text_laws::lemma_tokens_one;
use crate::text_laws::lemma_tokens_small;
use crate::text_laws::meet;

verus! {

/// Whether a term that is written as one token is read back from it: its
/// text is a token, and the token stands for the term.
pub open spec fn reads_back(x: Term, table: Seq<Numeral>) -> bool {
    is_token(text_of(x)) && atom(text_of(x), table) == x
}

/// Whether a term is one that parsing yields: a chain of items that ends in
/// the empty program, where an item is a block or a scope around such a
/// chain, or a term that is read back from its text.
pub open spec fn canonical(t: Term, table: Seq<Numeral>) -> bool
    decreases t,
{
    match t {
        Term::Id => true,
        Term::Sequence(x, rest) => canonical(*rest, table) && match *x {
            Term::Id => false,
            Term::Sequence(_, _) => false,
            Term::Block(body) => canonical(*body, table),
            Term::Arrow(body) => canonical(*body, table),
            _ => reads_back(*x, table),
        },
        _ => false,
    }
}

/// The tokens of one item of a canonical term.
pub open spec fn item_tokens(x: Term) -> Seq<Seq<char>>
    decreases x, 0nat,
{
    match x {
        Term::Block(body) => seq![seq!['[']] + term_tokens(*body) + seq![seq![']']],
        Term::Arrow(body) => seq![seq!['{']] + term_tokens(*body) + seq![seq!['}']],
        _ => seq![text_of(x)],
    }
}

/// The tokens of a canonical term.
pub open spec fn term_tokens(t: Term) -> Seq<Seq<char>>
    decreases t, 1nat,
{
    match t {
        Term::Sequence(x, rest) => item_tokens(*x) + term_tokens(*rest),
        _ => Seq::empty(),
    }
}

/// The text of a term begins and ends with no white space, so that a space
/// or a bracket beside it marks the border of a token; and the text of a
/// canonical term has the tokens of the term.
pub proof fn lemma_text_tokens(t: Term, table: Seq<Numeral>)
    requires
        canonical(t, table),
    ensures
        tokens_of(text_of(t)) == term_tokens(t),
    decreases t, 1nat,
{
    match t {
        Term::Sequence(x, rest) => {
            lemma_item_tokens(*x, table);
            lemma_text_tokens(*rest, table);
            if *rest is Id {
                lemma_tokens_small(' ');
                assert(item_tokens(*x) + term_tokens(*rest) =~= item_tokens(*x));
            } else {
                let a = text_of(*x);
                let sp = seq![' '];
                let b = text_of(*rest);
                assert(is_space(' '));
                lemma_tokens_small(' ');
                assert(meet(a, sp));
                lemma_tokens_add(a, sp);
                assert((a + sp).last() == ' ');
                assert(meet(a + sp, b));
                lemma_tokens_add(a + sp, b);
                assert(tokens_of(a) + tokens_of(sp) =~= tokens_of(a));
            }
        },
        _ => {
            lemma_tokens_small(' ');
        },
    }
}

/// The text of an item of a canonical term has the tokens of the item.
pub proof fn lemma_item_tokens(x: Term, table: Seq<Numeral>)
    requires
        match x {
            Term::Id => false,
            Term::Sequence(_, _) => false,
            Term::Block(body) => canonical(*body, table),
            Term::Arrow(body) => canonical(*body, table),
            _ => reads_back(x, table),
        },
    ensures
        tokens_of(text_of(x)) == item_tokens(x),
    decreases x, 0nat,
{
    match x {
        Term::Block(body) => {
            lemma_text_tokens(*body, table);
            let open = seq!['['];
            let close = seq![']'];
            let inner = text_of(*body);
            lemma_tokens_small('[');
            lemma_tokens_small(']');
            assert(open.last() == '[');
            assert(meet(open, inner));
            lemma_tokens_add(open, inner);
            assert(close[0] == ']');
            assert(meet(open + inner, close));
            lemma_tokens_add(open + inner, close);
        },
        Term::Arrow(body) => {
            lemma_text_tokens(*body, table);
            let open = seq!['{', ' '];
            let close = seq![' ', '}'];
            let inner = text_of(*body);
            lemma_tokens_small('{');
            lemma_tokens_small('}');
            lemma_tokens_small(' ');
            assert(open =~= seq!['{'] + seq![' ']);
            assert(close =~= seq![' '] + seq!['}']);
            assert(meet(seq!['{'], seq![' '])) by {
                assert(seq![' '][0] == ' ');
            }
            lemma_tokens_add(seq!['{'], seq![' ']);
            assert(meet(seq![' '], seq!['}'])) by {
                assert(seq!['}'][0] == '}');
            }
            lemma_tokens_add(seq![' '], seq!['}']);
            assert(tokens_of(open) =~= seq![seq!['{']]);
            assert(tokens_of(close) =~= seq![seq!['}']]);
            assert(open.last() == ' ');
            assert(meet(open, inner));
            lemma_tokens_add(open, inner);
            assert(close[0] == ' ');
            assert(meet(open + inner, close));
            lemma_tokens_add(open + inner, close);
        },
        _ => {
            lemma_tokens_one(text_of(x));
        },
    }
}

/// The items of a chain.
pub open spec fn items_of(t: Term) -> Seq<Term>
    decreases t,
{
    match t {
        Term::Sequence(x, rest) => seq![*x] + items_of(*rest),
        _ => Seq::empty(),
    }
}

/// A canonical term is the chain of its items, also behind other atoms.
pub proof fn lemma_chain_items(build: Seq<Term>, t: Term, table: Seq<Numeral>)
    requires
        canonical(t, table),
        build.len() == 0,
    ensures
        chain(build + items_of(t)) == t,
    decreases t,
{
    match t {
        Term::Sequence(x, rest) => {
            lemma_chain_items(build, *rest, table);
            let all = build + items_of(t);
            assert(all =~= seq![*x] + items_of(*rest));
            assert(all.drop_first() =~= build + items_of(*rest));
            assert(all[0] == *x);
            assert(cat(*x, *rest) == Term::pair(*x, *rest));
        },
        _ => {
            assert(build + items_of(t) =~= Seq::<Term>::empty());
        },
    }
}

/// Reading the tokens of a canonical term adds the items of the term to
/// the items that were read before.
pub proof fn lemma_parse_term(
    t: Term,
    rest: Seq<Seq<char>>,
    table: Seq<Numeral>,
    stack: Seq<Level>,
    build: Seq<Term>,
)
    requires
        canonical(t, table),
    ensures
        parse_tokens(term_tokens(t) + rest, table, stack, build) == parse_tokens(
            rest,
            table,
            stack,
            build + items_of(t),
        ),
    decreases t, 1nat,
{
    match t {
        Term::Sequence(x, more) => {
            let after = term_tokens(*more) + rest;
            assert(term_tokens(t) + rest =~= item_tokens(*x) + after);
            lemma_parse_item(*x, after, table, stack, build);
            lemma_parse_term(*more, rest, table, stack, build.push(*x));
            assert(build.push(*x) + items_of(*more) =~= build + items_of(t));
        },
        _ => {
            assert(term_tokens(t) + rest =~= rest);
            assert(build + items_of(t) =~= build);
        },
    }
}

/// Reading the tokens of an item of a canonical term adds the item to the
/// items that were read before.
pub proof fn lemma_parse_item(
    x: Term,
    rest: Seq<Seq<char>>,
    table: Seq<Numeral>,
    stack: Seq<Level>,
    build: Seq<Term>,
)
    requires
        match x {
            Term::Id => false,
            Term::Sequence(_, _) => false,
            Term::Block(body) => canonical(*body, table),
            Term::Arrow(body) => canonical(*body, table),
            _ => reads_back(x, table),
        },
    ensures
        parse_tokens(item_tokens(x) + rest, table, stack, build) == parse_tokens(
            rest,
            table,
            stack,
            build.push(x),
        ),
    decreases x, 0nat,
{
    match x {
        Term::Block(body) => {
            lemma_parse_scope(*body, true, rest, table, stack, build);
        },
        Term::Arrow(body) => {
            lemma_parse_scope(*body, false, rest, table, stack, build);
        },
        _ => {
            let w = text_of(x);
            let all = item_tokens(x) + rest;
            assert(all[0] == w);
            assert(all.drop_first() =~= rest);
            assert(!is_break(w[0]));
            assert(opens(w) is None) by {
                if w == seq!['['] {
                    assert(w[0] == '[');
                }
                if w == seq!['{'] {
                    assert(w[0] == '{');
                }
            }
            assert(closes(w) is None) by {
                if w == seq![']'] {
                    assert(w[0] == ']');
                }
                if w == seq!['}'] {
                    assert(w[0] == '}');
                }
            }
        },
    }
}

/// The bracket that opens a scope.
pub open spec fn open_token(block: bool) -> Seq<char> {
    if block {
        seq!['[']
    } else {
        seq!['{']
    }
}

/// The bracket that closes a scope.
pub open spec fn close_token(block: bool) -> Seq<char> {
    if block {
        seq![']']
    } else {
        seq!['}']
    }
}

/// The brackets open and close scopes of their kind, and nothing else.
pub proof fn lemma_brackets(block: bool)
    ensures
        opens(open_token(block)) == Some(block),
        closes(close_token(block)) == Some(block),
        opens(close_token(block)) is None,
        closes(open_token(block)) is None,
{
    assert(seq!['['][0] == '[');
    assert(seq!['{'][0] == '{');
    assert(seq![']'][0] == ']');
    assert(seq!['}'][0] == '}');
}

/// Reading a scope around a canonical term adds the scope to the items
/// that were read before.
pub proof fn lemma_parse_scope(
    body: Term,
    block: bool,
    rest: Seq<Seq<char>>,
    table: Seq<Numeral>,
    stack: Seq<Level>,
    build: Seq<Term>,
)
    requires
        canonical(body, table),
    ensures
        parse_tokens(
            seq![open_token(block)] + term_tokens(body) + seq![close_token(block)] + rest,
            table,
            stack,
            build,
        ) == parse_tokens(
            rest,
            table,
            stack,
            build.push(
                if block {
                    Term::block(body)
                } else {
                    Term::arrow(body)
                },
            ),
        ),
    decreases body, 2nat,
{
    lemma_brackets(block);
    let all = seq![open_token(block)] + term_tokens(body) + seq![close_token(block)] + rest;
    let inner = term_tokens(body) + (seq![close_token(block)] + rest);
    let level = Level { block: block, items: build };
    assert(all[0] == open_token(block));
    assert(all.drop_first() =~= inner);
    assert(parse_tokens(all, table, stack, build) == parse_tokens(
        inner,
        table,
        stack.push(level),
        Seq::empty(),
    ));
    lemma_parse_term(body, seq![close_token(block)] + rest, table, stack.push(level), Seq::empty());
    lemma_chain_items(Seq::empty(), body, table);
    let tail = seq![close_token(block)] + rest;
    assert(tail[0] == close_token(block));
    assert(tail.drop_first() =~= rest);
    assert(stack.push(level).drop_last() =~= stack);
    assert(stack.push(level).last() == level);
    assert(wrap(block, Seq::<Term>::empty() + items_of(body)) == if block {
        Term::block(body)
    } else {
        Term::arrow(body)
    });
}

/// Parsing undoes quoting: the text of a canonical term is read back as
/// the term.
pub proof fn law_parse_quote(t: Term, table: Seq<Numeral>)
    requires
        canonical(t, table),
    ensures
        parse_text(text_of(t), table) == Some(t),
{
    lemma_text_tokens(t, table);
    lemma_parse_term(t, Seq::empty(), table, Seq::empty(), Seq::empty());
    assert(term_tokens(t) + Seq::<Seq<char>>::empty() =~= term_tokens(t));
    lemma_chain_items(Seq::empty(), t, table);
}


/// Whether a term is an item of a canonical term.
pub open spec fn item_ok(x: Term, table: Seq<Numeral>) -> bool {
    match x {
        Term::Id => false,
        Term::Sequence(_, _) => false,
        Term::Block(body) => canonical(*body, table),
        Term::Arrow(body) => canonical(*body, table),
        _ => reads_back(x, table),
    }
}

/// Whether every one of the terms is an item of a canonical term.
pub open spec fn items_ok(items: Seq<Term>, table: Seq<Numeral>) -> bool {
    forall|k: int| 0 <= k < items.len() ==> item_ok(#[trigger] items[k], table)
}

/// The tokens of the items, in order.
pub open spec fn items_tokens(items: Seq<Term>) -> Seq<Seq<char>>
    decreases items.len(),
{
    if items.len() == 0 {
        Seq::empty()
    } else {
        items_tokens(items.drop_last()) + item_tokens(items.last())
    }
}

/// The tokens that were read to get to the open scopes `stack` and the
/// items `build` of the innermost one.
pub open spec fn read_so_far(stack: Seq<Level>, build: Seq<Term>) -> Seq<Seq<char>>
    decreases stack.len(),
{
    if stack.len() == 0 {
        items_tokens(build)
    } else {
        read_so_far(stack.drop_last(), stack.last().items) + seq![
            open_token(stack.last().block),
        ] + items_tokens(build)
    }
}

/// The token as quoting writes it: a number in the text that the table
/// gives it, every other token as it is.
pub open spec fn canon_token(token: Seq<char>, table: Seq<Numeral>) -> Seq<char> {
    if opens(token) is Some || closes(token) is Some {
        token
    } else {
        text_of(atom(token, table))
    }
}

/// The tokens as quoting writes them.
pub open spec fn canon_tokens(tokens: Seq<Seq<char>>, table: Seq<Numeral>) -> Seq<Seq<char>> {
    Seq::new(tokens.len(), |k: int| canon_token(tokens[k], table))
}

/// Whether the table reads back what it writes: the text that it gives a
/// number is a token that it reads as the same number.
pub open spec fn faithful(table: Seq<Numeral>) -> bool {
    forall|token: Seq<char>|
        (#[trigger] read_number(table, token)) is Some ==> reads_back(
            Term::Number(read_number(table, token)->0.bits, read_number(table, token)->0.text@),
            table,
        )
}

/// Whether every token is a bracket or a token that is no bracket.
pub open spec fn tokens_ok(tokens: Seq<Seq<char>>) -> bool {
    forall|k: int|
        0 <= k < tokens.len() ==> is_token(#[trigger] tokens[k]) || opens(tokens[k]) is Some
            || closes(tokens[k]) is Some
}

/// The chain of items of a canonical term is canonical, and has the tokens
/// of the items.
pub proof fn lemma_chain_ok(items: Seq<Term>, table: Seq<Numeral>)
    requires
        items_ok(items, table),
    ensures
        canonical(chain(items), table),
        term_tokens(chain(items)) == items_tokens(items),
    decreases items.len(),
{
    if items.len() > 0 {
        let rest = items.drop_first();
        assert forall|k: int| 0 <= k < rest.len() implies item_ok(#[trigger] rest[k], table) by {
            assert(item_ok(items[k + 1], table));
        }
        lemma_chain_ok(rest, table);
        assert(item_ok(items[0], table));
        assert(chain(items) == Term::pair(items[0], chain(rest)));
        lemma_items_tokens_front(items);
    }
}

/// The tokens of items are the tokens of the first followed by the tokens
/// of the others.
pub proof fn lemma_items_tokens_front(items: Seq<Term>)
    requires
        items.len() > 0,
    ensures
        items_tokens(items) == item_tokens(items[0]) + items_tokens(items.drop_first()),
    decreases items.len(),
{
    if items.len() == 1 {
        assert(items.drop_last() =~= Seq::<Term>::empty());
        assert(items.drop_first() =~= Seq::<Term>::empty());
        assert(items.drop_last().len() == 0);
        assert(items_tokens(items.drop_last()) =~= Seq::<Seq<char>>::empty());
        assert(items_tokens(items.drop_first()) =~= Seq::<Seq<char>>::empty());
        assert(items.last() == items[0]);
        assert(items_tokens(items) =~= item_tokens(items[0]));
        assert(item_tokens(items[0]) + items_tokens(items.drop_first()) =~= item_tokens(items[0]));
    } else {
        lemma_items_tokens_front(items.drop_last());
        assert(items.drop_last().drop_first() =~= items.drop_first().drop_last());
        assert(items.drop_first().last() == items.last());
        assert(items.drop_last()[0] == items[0]);
        assert((item_tokens(items[0]) + items_tokens(items.drop_first().drop_last()))
            + item_tokens(items.last()) =~= item_tokens(items[0]) + (items_tokens(
            items.drop_first().drop_last(),
        ) + item_tokens(items.last())));
    }
}

/// One more item that was read adds its tokens to those read so far.
pub proof fn lemma_read_push(stack: Seq<Level>, build: Seq<Term>, x: Term)
    ensures
        read_so_far(stack, build.push(x)) == read_so_far(stack, build) + item_tokens(x),
{
    assert(build.push(x).drop_last() =~= build);
    assert(build.push(x).last() == x);
    if stack.len() > 0 {
        let head = read_so_far(stack.drop_last(), stack.last().items) + seq![
            open_token(stack.last().block),
        ];
        assert(head + (items_tokens(build) + item_tokens(x)) =~= (head + items_tokens(build))
            + item_tokens(x));
    }
}

/// A token that is no bracket stands for a term that is read back from
/// its text, if the table is faithful.
pub proof fn lemma_atom_reads_back(token: Seq<char>, table: Seq<Numeral>)
    requires
        is_token(token),
        faithful(table),
    ensures
        item_ok(atom(token, table), table),
        !(atom(token, table) is Block),
        !(atom(token, table) is Arrow),
        item_tokens(atom(token, table)) == seq![canon_token(token, table)],
{
    assert(!is_break(token[0]));
    assert(opens(token) is None) by {
        if token == seq!['['] {
            assert(token[0] == '[');
        }
        if token == seq!['{'] {
            assert(token[0] == '{');
        }
    }
    assert(closes(token) is None) by {
        if token == seq![']'] {
            assert(token[0] == ']');
        }
        if token == seq!['}'] {
            assert(token[0] == '}');
        }
    }
    match opcode_named(token) {
        Some(opcode) => {
            assert(token == opcode_name(opcode));
        },
        None => match hint_named(token) {
            Some(name) => {
                assert(seq!['('] + name + seq![')'] =~= token);
            },
            None => match read_number(table, token) {
                Some(numeral) => {},
                None => {},
            },
        },
    }
}

/// What parsing yields is canonical, and its tokens are the tokens that
/// were read, as quoting writes them.
pub proof fn lemma_parse_tokens(
    tokens: Seq<Seq<char>>,
    table: Seq<Numeral>,
    stack: Seq<Level>,
    build: Seq<Term>,
)
    requires
        faithful(table),
        tokens_ok(tokens),
        items_ok(build, table),
        forall|l: int| 0 <= l < stack.len() ==> items_ok((#[trigger] stack[l]).items, table),
        parse_tokens(tokens, table, stack, build) is Some,
    ensures
        canonical(parse_tokens(tokens, table, stack, build)->0, table),
        term_tokens(parse_tokens(tokens, table, stack, build)->0) == read_so_far(stack, build)
            + canon_tokens(tokens, table),
    decreases tokens.len(),
{
    if tokens.len() == 0 {
        lemma_chain_ok(build, table);
        assert(read_so_far(stack, build) + canon_tokens(tokens, table) =~= read_so_far(
            stack,
            build,
        ));
    } else {
        let token = tokens[0];
        let rest = tokens.drop_first();
        assert forall|k: int| 0 <= k < rest.len() implies is_token(#[trigger] rest[k]) || opens(
            rest[k],
        ) is Some || closes(rest[k]) is Some by {
            assert(rest[k] == tokens[k + 1]);
        }
        assert(canon_tokens(tokens, table) =~= seq![canon_token(token, table)] + canon_tokens(
            rest,
            table,
        ));
        let so_far = read_so_far(stack, build);
        if opens(token) is Some {
            let level = Level { block: opens(token)->0, items: build };
            let up = stack.push(level);
            assert(up.drop_last() =~= stack);
            assert forall|l: int| 0 <= l < up.len() implies items_ok(
                (#[trigger] up[l]).items,
                table,
            ) by {
                if l < stack.len() {
                    assert(up[l] == stack[l]);
                }
            }
            lemma_parse_tokens(rest, table, up, Seq::empty());
            assert(token == open_token(level.block));
            assert(read_so_far(up, Seq::empty()) =~= so_far + seq![token]);
            assert((so_far + seq![token]) + canon_tokens(rest, table) =~= so_far + (seq![
                token,
            ] + canon_tokens(rest, table)));
        } else if closes(token) is Some {
            let top = stack.last();
            let down = stack.drop_last();
            let made = wrap(top.block, build);
            lemma_chain_ok(build, table);
            assert(items_ok(top.items, table));
            assert forall|k: int| 0 <= k < top.items.push(made).len() implies item_ok(
                #[trigger] top.items.push(made)[k],
                table,
            ) by {
                if k < top.items.len() {
                    assert(item_ok(top.items[k], table));
                }
            }
            assert forall|l: int| 0 <= l < down.len() implies items_ok(
                (#[trigger] down[l]).items,
                table,
            ) by {
                assert(down[l] == stack[l]);
            }
            lemma_parse_tokens(rest, table, down, top.items.push(made));
            lemma_read_push(down, top.items, made);
            assert(token == close_token(top.block));
            assert(item_tokens(made) == seq![open_token(top.block)] + items_tokens(build) + seq![
                token,
            ]);
            let head = read_so_far(down, top.items);
            assert(head + item_tokens(made) =~= so_far + seq![token]);
            assert((so_far + seq![token]) + canon_tokens(rest, table) =~= so_far + (seq![
                token,
            ] + canon_tokens(rest, table)));
        } else {
            assert(is_token(tokens[0]));
            lemma_atom_reads_back(token, table);
            let x = atom(token, table);
            assert forall|k: int| 0 <= k < build.push(x).len() implies item_ok(
                #[trigger] build.push(x)[k],
                table,
            ) by {
                if k < build.len() {
                    assert(item_ok(build[k], table));
                }
            }
            lemma_parse_tokens(rest, table, stack, build.push(x));
            lemma_read_push(stack, build, x);
            assert((so_far + seq![canon_token(token, table)]) + canon_tokens(rest, table)
                =~= so_far + (seq![canon_token(token, table)] + canon_tokens(rest, table)));
        }
    }
}

/// The tokens of a text are brackets and tokens that are no brackets.
pub proof fn lemma_tokens_ok(src: Seq<char>)
    ensures
        tokens_ok(tokens_of(src)),
{
    assert forall|k: int| 0 <= k < tokens_of(src).len() implies is_token(
        #[trigger] tokens_of(src)[k],
    ) || opens(tokens_of(src)[k]) is Some || closes(tokens_of(src)[k]) is Some by {
        lemma_tokens_are_tokens(src, 0, k);
        let w = tokens_of(src)[k];
        if !is_token(w) {
            assert(w =~= seq![w[0]]);
        }
    }
}

/// Quoting undoes parsing, up to white space and the way in which numbers
/// are written: the text of the term that a source text stands for has the
/// tokens of the source text, each number in the text that the table gives
/// it.  The term is canonical, so its text is read back as the same term.
pub proof fn law_quote_parse(src: Seq<char>, table: Seq<Numeral>)
    requires
        faithful(table),
        parse_text(src, table) is Some,
    ensures
        tokens_of(text_of(parse_text(src, table)->0)) == canon_tokens(tokens_of(src), table),
        canonical(parse_text(src, table)->0, table),
        parse_text(text_of(parse_text(src, table)->0), table) == parse_text(src, table),
{
    lemma_tokens_ok(src);
    lemma_parse_tokens(tokens_of(src), table, Seq::empty(), Seq::empty());
    let t = parse_text(src, table)->0;
    lemma_text_tokens(t, table);
    law_parse_quote(t, table);
    assert(read_so_far(Seq::empty(), Seq::empty()) + canon_tokens(tokens_of(src), table)
        =~= canon_tokens(tokens_of(src), table));
}

/// A text without numbers keeps its tokens through parsing and quoting.
pub proof fn law_quote_parse_plain(src: Seq<char>, table: Seq<Numeral>)
    requires
        table.len() == 0,
        parse_text(src, table) is Some,
    ensures
        tokens_of(text_of(parse_text(src, table)->0)) == tokens_of(src),
{
    assert(faithful(table));
    law_quote_parse(src, table);
    lemma_tokens_ok(src);
    let tokens = tokens_of(src);
    assert forall|k: int| 0 <= k < tokens.len() implies canon_token(
        #[trigger] tokens[k],
        table,
    ) == tokens[k] by {
        let token = tokens[k];
        if opens(token) is None && closes(token) is None {
            assert(is_token(token));
            lemma_atom_reads_back(token, table);
            match opcode_named(token) {
                Some(opcode) => {},
                None => match hint_named(token) {
                    Some(name) => {
                        assert(seq!['('] + name + seq![')'] =~= token);
                    },
                    None => {},
                },
            }
        }
    }
    assert(canon_tokens(tokens, table) =~= tokens);
}


/// A canonical term is a chain of atoms.
pub proof fn lemma_canonical_normal(t: Term, table: Seq<Numeral>)
    requires
        canonical(t, table),
    ensures
        crate::reduce_laws::normal(t),
    decreases t,
{
    match t {
        Term::Sequence(x, rest) => {
            lemma_canonical_normal(*rest, table);
        },
        _ => {},
    }
}

/// With a quota of zero a canonical term is returned as it is.
pub proof fn law_quota_zero_keeps_the_term(
    t: Term,
    table: Seq<Numeral>,
    b: crate::machine::Bindings,
)
    requires
        canonical(t, table),
    ensures
        crate::machine::Machine::new(t).run(b, 0).result() == t,
{
    crate::reduce_laws::law_quota_zero(t, b);
    lemma_canonical_normal(t, table);
    crate::reduce_laws::lemma_cat_id(t);
}


/// The nodes that the tokens of a text with matching brackets cost: none
/// for a bracket that opens, three for one that closes, two for any other
/// token.
pub open spec fn tokens_cost(tokens: Seq<Seq<char>>) -> nat
    decreases tokens.len(),
{
    if tokens.len() == 0 {
        0
    } else {
        tokens_cost(tokens.drop_first()) + if opens(tokens[0]) is Some {
            0nat
        } else if closes(tokens[0]) is Some {
            3nat
        } else {
            2nat
        }
    }
}

/// The number of items that the open scopes hold.
pub open spec fn held(stack: Seq<Level>) -> nat
    decreases stack.len(),
{
    if stack.len() == 0 {
        0
    } else {
        held(stack.drop_last()) + stack.last().items.len()
    }
}

/// Tokens that are read to a term cost what they cost one by one, and one
/// node for every item that was read before, and one for the end.
pub proof fn lemma_parse_need(
    tokens: Seq<Seq<char>>,
    table: Seq<Numeral>,
    stack: Seq<Level>,
    build: Seq<Term>,
)
    requires
        parse_tokens(tokens, table, stack, build) is Some,
    ensures
        parse_need(tokens, table, stack, build) == tokens_cost(tokens) + build.len() + held(stack)
            + 1,
    decreases tokens.len(),
{
    if tokens.len() > 0 {
        let token = tokens[0];
        let rest = tokens.drop_first();
        if opens(token) is Some {
            let up = stack.push(Level { block: opens(token)->0, items: build });
            assert(up.drop_last() =~= stack);
            lemma_parse_need(rest, table, up, Seq::empty());
        } else if closes(token) is Some {
            lemma_parse_need(
                rest,
                table,
                stack.drop_last(),
                stack.last().items.push(wrap(stack.last().block, build)),
            );
        } else {
            lemma_parse_need(rest, table, stack, build.push(atom(token, table)));
        }
    }
}

/// A text with matching brackets costs two nodes for every token that is
/// no bracket, three for every scope, and one for its end.
pub proof fn law_parse_cost(src: Seq<char>, table: Seq<Numeral>)
    requires
        parse_text(src, table) is Some,
    ensures
        parse_cost(src, table) == tokens_cost(tokens_of(src)) + 1,
{
    lemma_parse_need(tokens_of(src), table, Seq::empty(), Seq::empty());
}

} // verus!
