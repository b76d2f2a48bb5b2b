//! A document's block tree, and which of its blocks a migration rewrites.

use vstd::prelude::*;
use vstd::string::StringExecFns;

verus! {

/// One node of a document tree: its identifier and kind where the document
/// gives them, and its children in document order.
pub struct BlockNode {
    pub id: Option<String>,
    pub kind: Option<String>,
    pub children: Vec<BlockNode>,
}

/// The kinds of block whose content is fetched, repaired and stored back.
#[derive(Clone, Copy, Debug, PartialEq, Eq, Structural)]
pub enum LeafKind {
    Paragraph,
    MathBlock,
    Blockquote,
}

/// The leaf kind that a kind tag names, if any.
pub open spec fn leaf_kind(tag: Seq<char>) -> Option<LeafKind> {
    if tag == "NodeParagraph"@ {
        Some(LeafKind::Paragraph)
    } else if tag == "NodeMathBlock"@ {
        Some(LeafKind::MathBlock)
    } else if tag == "NodeBlockquote"@ {
        Some(LeafKind::Blockquote)
    } else {
        None
    }
}

pub fn classify(tag: &String) -> (r: Option<LeafKind>)
    ensures
        r == leaf_kind(tag@),
{
    if *tag == String::from_str("NodeParagraph") {
        Some(LeafKind::Paragraph)
    } else if *tag == String::from_str("NodeMathBlock") {
        Some(LeafKind::MathBlock)
    } else if *tag == String::from_str("NodeBlockquote") {
        Some(LeafKind::Blockquote)
    } else {
        None
    }
}

/// The blocks of the tree under `n` that a migration rewrites, in document
/// order. A node without a kind is skipped with its subtree; a node of a leaf
/// kind is rewritten (where it has an identifier) and its children are not
/// visited; any other node is visited through its children.
pub open spec fn leaf_tasks(n: BlockNode) -> Seq<(Seq<char>, LeafKind)>
    decreases n,
{
    match n.kind {
        None => Seq::empty(),
        Some(tag) => match leaf_kind(tag@) {
            Some(k) => match n.id {
                Some(id) => seq![(id@, k)],
                None => Seq::empty(),
            },
            None => children_tasks(n.children@),
        },
    }
}

/// The tasks of a sequence of sibling nodes, in order.
pub open spec fn children_tasks(ch: Seq<BlockNode>) -> Seq<(Seq<char>, LeafKind)>
    decreases ch,
{
    if ch.len() == 0 {
        Seq::empty()
    } else {
        children_tasks(ch.drop_last()) + leaf_tasks(ch.last())
    }
}

/// A block to rewrite: its identifier and kind.
#[derive(Clone, Debug)]
pub struct LeafTask {
    pub id: String,
    pub kind: LeafKind,
}

pub open spec fn task_view(t: LeafTask) -> (Seq<char>, LeafKind) {
    (t.id@, t.kind)
}

pub open spec fn tasks_view(v: Seq<LeafTask>) -> Seq<(Seq<char>, LeafKind)> {
    v.map_values(|t: LeafTask| task_view(t))
}

fn collect(n: &BlockNode, out: &mut Vec<LeafTask>)
    ensures
        tasks_view(final(out)@) == tasks_view(old(out)@) + leaf_tasks(*n),
    decreases n,
{
    match &n.kind {
        None => {
            assert(tasks_view(out@) =~= tasks_view(out@) + leaf_tasks(*n));
        },
        Some(tag) => match classify(tag) {
            Some(k) => match &n.id {
                Some(id) => {
                    let ghost before = out@;
                    out.push(LeafTask { id: id.clone(), kind: k });
                    assert(tasks_view(out@) =~= tasks_view(before) + leaf_tasks(*n));
                },
                None => {
                    assert(tasks_view(out@) =~= tasks_view(out@) + leaf_tasks(*n));
                },
            },
            None => {
                let ghost before = out@;
                let mut i: usize = 0;
                while i < n.children.len()
                    invariant
                        i <= n.children@.len(),
                        tasks_view(out@) == tasks_view(before) + children_tasks(
                            n.children@.take(i as int),
                        ),
                    decreases n.children@.len() - i,
                {
                    proof {
                        assert(decreases_to!(n => n.children));
                        assert(decreases_to!(n.children => n.children[i as int]));
                    }
                    let ghost mid = out@;
                    collect(&n.children[i], out);
                    assert(n.children@.take(i + 1).drop_last() =~= n.children@.take(i as int));
                    assert(tasks_view(out@) =~= tasks_view(before) + children_tasks(
                        n.children@.take(i + 1),
                    ));
                    i = i + 1;
                }
                assert(n.children@.take(i as int) =~= n.children@);
            },
        },
    }
}

/// The blocks under `root` that a migration rewrites, in document order.
pub fn plan(root: &BlockNode) -> (r: Vec<LeafTask>)
    ensures
        tasks_view(r@) == leaf_tasks(*root),
{
    let mut out: Vec<LeafTask> = Vec::new();
    collect(root, &mut out);
    assert(tasks_view(out@) =~= leaf_tasks(*root));
    out
}

} // verus!
