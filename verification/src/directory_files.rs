use vstd::prelude::*;
use crate::file_path::FilePath;
use std::collections::vec_deque::VecDeque;

verus! {

/// One directory entry as its parent's listing reports it: a path and
/// whether that path is itself a directory.
#[derive(Clone)]
pub struct DirEntry {
    pub path: FilePath,
    pub is_dir: bool,
}

/// What a pull on the traversal produced: a regular file to yield, a
/// directory whose listing the driver must supply before pulling again, or
/// the end of the walk.
pub enum TraversalStep {
    Done,
    File(FilePath),
    Descend(FilePath),
}

/// The decimal digits of `n`, most significant first.
pub open spec fn dec_digits(n: nat) -> Seq<u8>
    decreases n,
{
    if n < 10 {
        seq![(48 + n) as u8]
    } else {
        dec_digits(n / 10).push((48 + n % 10) as u8)
    }
}

/// A lazy breadth-first walk over a directory tree, pulled one entry at a
/// time and drained only once.  The walk owns the traversal order — a FIFO
/// queue of pending entries — while its driver does the filesystem's part:
/// it seeds the queue with the root's listing and, after each `Descend`,
/// hands over that directory's listing (an empty one where the listing
/// failed, so the walk goes on best-effort).  Files are yielded as they are
/// dequeued, so all direct children come before any grandchild.
pub struct DirectoryFiles {
    /// The root the walk was set loose on.
    pub root_dir: FilePath,
    /// Entries discovered but not yet processed, in traversal order.
    pub queue: VecDeque<DirEntry>,
    /// How many entries, files and directories together, have been dequeued.
    pub num_found_items: u32,
}

impl DirectoryFiles {
    pub fn new(root_dir: &FilePath) -> (r: DirectoryFiles)
        ensures
            r.root_dir@ == root_dir@,
            r.queue@ == Seq::<DirEntry>::empty(),
            r.num_found_items == 0,
    {
        DirectoryFiles {
            root_dir: root_dir.clone(),
            queue: VecDeque::new(),
            num_found_items: 0,
        }
    }

    /// Adds one directory's listed entries at the back of the queue, in
    /// listing order.
    pub fn enqueue(&mut self, entries: Vec<DirEntry>)
        ensures
            final(self).queue@ == old(self).queue@ + entries@,
            final(self).root_dir == old(self).root_dir,
            final(self).num_found_items == old(self).num_found_items,
    {
        let ghost entries0 = entries@;
        let mut rest = entries;
        while rest.len() > 0
            invariant
                self.queue@ + rest@ == old(self).queue@ + entries0,
                self.root_dir == old(self).root_dir,
                self.num_found_items == old(self).num_found_items,
            decreases rest@.len(),
        {
            let ghost q_pre = self.queue@;
            let ghost r_pre = rest@;
            let entry = rest.remove(0);
            self.queue.push_back(entry);
            proof {
                assert(rest@ =~= r_pre.drop_first());
                assert(self.queue@ + rest@ =~= q_pre + r_pre);
            }
        }
        proof {
            assert(self.queue@ =~= self.queue@ + rest@);
        }
    }

    /// Pulls the walk one step forward: dequeues one entry and counts it;
    /// an empty queue ends the walk, a directory entry asks the driver to
    /// descend, a file entry is yielded.
    pub fn next(&mut self) -> (r: TraversalStep)
        requires
            old(self).num_found_items < u32::MAX,
        ensures
            final(self).root_dir == old(self).root_dir,
            match r {
                TraversalStep::Done => old(self).queue@.len() == 0 && final(self).queue@ == old(
                    self,
                ).queue@ && final(self).num_found_items == old(self).num_found_items,
                TraversalStep::File(p) => old(self).queue@.len() > 0 && !old(self).queue@[0].is_dir
                    && p == old(self).queue@[0].path && final(self).queue@ == old(
                    self,
                ).queue@.drop_first() && final(self).num_found_items == old(self).num_found_items
                    + 1,
                TraversalStep::Descend(p) => old(self).queue@.len() > 0 && old(
                    self,
                ).queue@[0].is_dir && p == old(self).queue@[0].path && final(self).queue@ == old(
                    self,
                ).queue@.drop_first() && final(self).num_found_items == old(self).num_found_items
                    + 1,
            },
    {
        match self.queue.pop_front() {
            None => TraversalStep::Done,
            Some(elem) => {
                self.num_found_items = self.num_found_items + 1;
                if elem.is_dir {
                    TraversalStep::Descend(elem.path)
                } else {
                    TraversalStep::File(elem.path)
                }
            },
        }
    }

    /// The running traversal count, rendered as decimal digits, for
    /// diagnostic reporting.
    pub fn count_decimal(&self) -> (r: Vec<u8>)
        ensures
            r@ == dec_digits(self.num_found_items as nat),
    {
        u32_decimal(self.num_found_items)
    }
}

/// Renders an unsigned number as its decimal digits.
fn u32_decimal(n: u32) -> (r: Vec<u8>)
    ensures
        r@ == dec_digits(n as nat),
    decreases n,
{
    if n < 10 {
        let mut v: Vec<u8> = Vec::new();
        v.push(48 + (n as u8));
        proof {
            assert(v@ =~= dec_digits(n as nat));
        }
        v
    } else {
        let mut v = u32_decimal(n / 10);
        v.push(48 + ((n % 10) as u8));
        proof {
            assert((n / 10) as nat == (n as nat) / 10);
            assert((n % 10) as nat == (n as nat) % 10);
            assert(v@ =~= dec_digits(n as nat));
        }
        v
    }
}

} // verus!
