//! The migration of one document, as a machine that says which remote call
//! comes next and what follows from its outcome. Blocks are handled one at a
//! time in document order: fetch, repair, store back; the first failure ends
//! the document.

use vstd::prelude::*;
use vstd::string::StringExecFns;
use crate::blockquote::{blockquote, update_node_blockquote};
use crate::error::{ErrorKind, MyError};
use crate::math_block::{math_block_unclosed, math_unclosed, normalize_math, update_node_math_block};
use crate::paragraph::{collapse_escapes, embed_images, update_node_paragraph};
use crate::text::drop_last_line;
use crate::tree::{leaf_tasks, plan, tasks_view, BlockNode, LeafKind, LeafTask};

verus! {

/// The repaired content of a block of kind `k`; `None` where a math block
/// holds a `$$` line that no block closes.
pub open spec fn repaired(k: LeafKind, s: Seq<char>) -> Option<Seq<char>> {
    match k {
        LeafKind::Paragraph => Some(embed_images(collapse_escapes(drop_last_line(s)))),
        LeafKind::MathBlock => if math_unclosed(drop_last_line(s)) {
            None
        } else {
            Some(normalize_math(drop_last_line(s)))
        },
        LeafKind::Blockquote => Some(blockquote(s)),
    }
}

/// Repairs the content of a block of kind `kind`.
pub fn transform_block(kind: LeafKind, content: &str) -> (r: Option<String>)
    ensures
        match r {
            Some(c) => repaired(kind, content@) == Some(c@),
            None => repaired(kind, content@) is None,
        },
{
    match kind {
        LeafKind::Paragraph => Some(update_node_paragraph(content)),
        LeafKind::MathBlock => if math_block_unclosed(content) {
            None
        } else {
            Some(update_node_math_block(content))
        },
        LeafKind::Blockquote => Some(update_node_blockquote(content)),
    }
}

/// What a migration waits for.
#[derive(Clone, Copy, Debug, PartialEq, Eq, Structural)]
pub enum Stage {
    /// The content of the current block.
    Fetching,
    /// The outcome of storing the current block.
    Writing,
    /// Nothing: the document is done or given up.
    Over,
}

/// The remote call to make next, or the end of the document.
#[derive(Debug)]
pub enum Action {
    Fetch { id: String },
    Write { id: String, content: String },
    Done,
    Abort(MyError),
}

/// An action as plain values.
pub enum Step {
    Fetch(Seq<char>),
    Write(Seq<char>, Seq<char>),
    Done,
    Abort(ErrorKind, Option<Seq<char>>, Seq<char>),
}

pub open spec fn step_of(a: Action) -> Step {
    match a {
        Action::Fetch { id } => Step::Fetch(id@),
        Action::Write { id, content } => Step::Write(id@, content@),
        Action::Done => Step::Done,
        Action::Abort(e) => Step::Abort(
            e.kind,
            match e.block {
                Some(b) => Some(b@),
                None => None,
            },
            e.detail@,
        ),
    }
}

/// The detail given when a block's content cannot be repaired.
pub open spec fn unrepairable_detail() -> Seq<char> {
    "math block has a `$$` line that no block closes"@
}

/// The migration of one document.
pub struct Migration {
    tasks: Vec<LeafTask>,
    pos: usize,
    stage: Stage,
}

impl Migration {
    /// The blocks to rewrite, in order.
    pub closed spec fn tasks(&self) -> Seq<(Seq<char>, LeafKind)> {
        tasks_view(self.tasks@)
    }

    /// How many blocks have been stored back.
    pub closed spec fn pos(&self) -> nat {
        self.pos as nat
    }

    pub closed spec fn stage(&self) -> Stage {
        self.stage
    }

    pub open spec fn wf(&self) -> bool {
        &&& self.pos() <= self.tasks().len()
        &&& self.stage() != Stage::Over ==> self.pos() < self.tasks().len()
    }

    /// Starts the migration of the document under `root`; the action is the
    /// first fetch, or `Done` where no block needs repair.
    pub fn new(root: &BlockNode) -> (r: (Migration, Action))
        ensures
            r.0.wf(),
            r.0.tasks() == leaf_tasks(*root),
            r.0.pos() == 0,
            leaf_tasks(*root).len() == 0 ==> r.0.stage() == Stage::Over && step_of(r.1)
                == Step::Done,
            leaf_tasks(*root).len() > 0 ==> r.0.stage() == Stage::Fetching && step_of(r.1)
                == Step::Fetch(leaf_tasks(*root)[0].0),
    {
        let tasks = plan(root);
        if tasks.len() == 0 {
            (Migration { tasks, pos: 0, stage: Stage::Over }, Action::Done)
        } else {
            let id = tasks[0].id.clone();
            (Migration { tasks, pos: 0, stage: Stage::Fetching }, Action::Fetch { id })
        }
    }

    /// The current block's content has come: the action stores its repair,
    /// or gives the document up where the content cannot be repaired.
    pub fn fetched(&mut self, content: &str) -> (r: Action)
        requires
            old(self).wf(),
            old(self).stage() == Stage::Fetching,
        ensures
            final(self).wf(),
            final(self).tasks() == old(self).tasks(),
            final(self).pos() == old(self).pos(),
            ({
                let t = old(self).tasks()[old(self).pos() as int];
                match repaired(t.1, content@) {
                    Some(c) => final(self).stage() == Stage::Writing && step_of(r) == Step::Write(
                        t.0,
                        c,
                    ),
                    None => final(self).stage() == Stage::Over && step_of(r) == Step::Abort(
                        ErrorKind::Transform,
                        Some(t.0),
                        unrepairable_detail(),
                    ),
                }
            }),
    {
        let ghost t = self.tasks()[self.pos() as int];
        let id = self.tasks[self.pos].id.clone();
        proof {
            assert(t == (self.tasks@[self.pos as int].id@, self.tasks@[self.pos as int].kind));
        }
        match transform_block(self.tasks[self.pos].kind, content) {
            Some(c) => {
                self.stage = Stage::Writing;
                Action::Write { id, content: c }
            },
            None => {
                self.stage = Stage::Over;
                Action::Abort(
                    MyError {
                        kind: ErrorKind::Transform,
                        block: Some(id),
                        detail: String::from_str("math block has a `$$` line that no block closes"),
                    },
                )
            },
        }
    }

    /// The current block has been stored: the action fetches the next block,
    /// or is `Done` after the last.
    pub fn written(&mut self) -> (r: Action)
        requires
            old(self).wf(),
            old(self).stage() == Stage::Writing,
        ensures
            final(self).wf(),
            final(self).tasks() == old(self).tasks(),
            final(self).pos() == old(self).pos() + 1,
            final(self).pos() == final(self).tasks().len() ==> final(self).stage() == Stage::Over
                && step_of(r) == Step::Done,
            final(self).pos() < final(self).tasks().len() ==> final(self).stage()
                == Stage::Fetching && step_of(r) == Step::Fetch(
                final(self).tasks()[final(self).pos() as int].0,
            ),
    {
        let n = self.tasks.len();
        assert(self.tasks().len() == n);
        self.pos = self.pos + 1;
        if self.pos == n {
            self.stage = Stage::Over;
            Action::Done
        } else {
            self.stage = Stage::Fetching;
            Action::Fetch { id: self.tasks[self.pos].id.clone() }
        }
    }

    /// A remote call for the current block failed: the document is given up,
    /// and the error names the block.
    pub fn failed(&mut self, err: MyError) -> (r: Action)
        requires
            old(self).wf(),
            old(self).stage() != Stage::Over,
        ensures
            final(self).wf(),
            final(self).tasks() == old(self).tasks(),
            final(self).pos() == old(self).pos(),
            final(self).stage() == Stage::Over,
            step_of(r) == Step::Abort(
                err.kind,
                Some(old(self).tasks()[old(self).pos() as int].0),
                err.detail@,
            ),
    {
        let id = self.tasks[self.pos].id.clone();
        self.stage = Stage::Over;
        Action::Abort(MyError { kind: err.kind, block: Some(id), detail: err.detail })
    }

    /// Whether the migration waits for a block's content.
    pub fn awaits_content(&self) -> (r: bool)
        ensures
            r == (self.stage() == Stage::Fetching),
    {
        self.stage == Stage::Fetching
    }

    /// Whether the migration waits for a block to be stored.
    pub fn awaits_store(&self) -> (r: bool)
        ensures
            r == (self.stage() == Stage::Writing),
    {
        self.stage == Stage::Writing
    }
}

} // verus!
