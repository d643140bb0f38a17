use vstd::prelude::*;
use crate::text::same_text;

verus! {

/// A code block of a Markdown document: its info string and its contents.
pub struct CodeBlock {
    pub info: String,
    pub literal: String,
}

/// The nodes of the syntax tree of a Markdown document, every node before
/// its children and the children in their order.  A node that is a code
/// block is given as its info string and its contents, every other node as
/// `None`.
pub uninterp spec fn document_nodes(src: Seq<char>) -> Seq<Option<(Seq<char>, Seq<char>)>>;

/// The nodes as mathematical values.
pub open spec fn nodes_view(nodes: Seq<Option<CodeBlock>>) -> Seq<Option<(Seq<char>, Seq<char>)>> {
    Seq::new(
        nodes.len(),
        |i: int|
            match nodes[i] {
                Some(block) => Some((block.info@, block.literal@)),
                None => None,
            },
    )
}

/// Parses a Markdown document with `comrak::parse_document`, under the
/// default options, and walks the syntax tree with `descendants`, which
/// yields a node before its children and the children in their order.  The
/// result holds one entry for every node: for a code block the info string
/// and the contents that comrak gives it, for any other node `None`.  What
/// the nodes of a given document are is not stated here: the contract only
/// names them.
#[verifier::external_body]
fn markdown_nodes(src: &str) -> (r: Vec<Option<CodeBlock>>)
    ensures
        nodes_view(r@) == document_nodes(src@),
{
    let arena = comrak::Arena::new();
    let root = comrak::parse_document(&arena, src, &comrak::Options::default());
    let mut nodes: Vec<Option<CodeBlock>> = Vec::new();
    for node in root.descendants() {
        nodes.push(match node.data.borrow().value {
            comrak::nodes::NodeValue::CodeBlock(ref block) => Some(
                CodeBlock { info: block.info.clone(), literal: block.literal.clone() },
            ),
            _ => None,
        });
    }
    nodes
}

/// The info string of the code blocks that hold the image of a session.
pub open spec fn marker() -> Seq<char> {
    seq!['s', 'u', 'n', 'd', 'i', 'a', 'l']
}

/// The contents of the code blocks whose info string is the marker, in
/// order.
pub open spec fn chosen(nodes: Seq<Option<(Seq<char>, Seq<char>)>>) -> Seq<Seq<char>>
    decreases nodes.len(),
{
    if nodes.len() == 0 {
        Seq::empty()
    } else {
        match nodes.last() {
            Some((info, literal)) => if info == marker() {
                chosen(nodes.drop_last()).push(literal)
            } else {
                chosen(nodes.drop_last())
            },
            None => chosen(nodes.drop_last()),
        }
    }
}

/// The parts in order, with a line feed between each two.
pub open spec fn joined(parts: Seq<Seq<char>>) -> Seq<char>
    decreases parts.len(),
{
    if parts.len() == 0 {
        Seq::empty()
    } else if parts.len() == 1 {
        parts[0]
    } else {
        joined(parts.drop_last()) + seq!['\n'] + parts.last()
    }
}

/// The code of the image that a Markdown document holds.
pub open spec fn image_code(src: Seq<char>) -> Seq<char> {
    joined(chosen(document_nodes(src)))
}

/// The code of the image that the given nodes hold: the contents of the
/// code blocks whose info string is the marker, joined by line feeds.
pub fn join_code_blocks(nodes: &Vec<Option<CodeBlock>>) -> (r: String)
    ensures
        r@ == joined(chosen(nodes_view(nodes@))),
{
    let mut out = String::new();
    let mut count: usize = 0;
    let mut i: usize = 0;
    let ghost all = nodes_view(nodes@);
    proof {
        reveal_strlit("sundial");
        reveal_strlit("\n");
        assert("sundial"@ =~= marker());
        assert("\n"@ =~= seq!['\n']);
        assert(all.take(0) =~= Seq::empty());
    }
    while i < nodes.len()
        invariant
            i <= nodes@.len(),
            all == nodes_view(nodes@),
            "sundial"@ == marker(),
            "\n"@ == seq!['\n'],
            count == chosen(all.take(i as int)).len(),
            count <= i,
            out@ == joined(chosen(all.take(i as int))),
        decreases nodes@.len() - i,
    {
        proof {
            assert(all.take(i + 1).drop_last() =~= all.take(i as int));
            assert(all.take(i + 1).last() == all[i as int]);
        }
        match &nodes[i] {
            Some(block) => {
                if same_text(block.info.as_str(), "sundial") {
                    let ghost picked = chosen(all.take(i as int));
                    proof {
                        assert(picked.push(block.literal@).drop_last() =~= picked);
                    }
                    if count > 0 {
                        out.append("\n");
                    }
                    out.append(block.literal.as_str());
                    count += 1;
                    proof {
                        if picked.len() == 0 {
                            assert(out@ =~= block.literal@);
                        }
                    }
                }
            },
            None => {},
        }
        i += 1;
    }
    proof {
        assert(all.take(nodes@.len() as int) =~= all);
    }
    out
}

/// The code of the image that a Markdown document holds: the contents of
/// its code blocks whose info string is the marker, joined by line feeds.
pub fn extract_code_blocks(src: &str) -> (r: String)
    ensures
        r@ == image_code(src@),
{
    let nodes = markdown_nodes(src);
    join_code_blocks(&nodes)
}

} // verus!
