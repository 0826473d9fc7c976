//! The directory scan stage over a finite tree: classifying listed entries
//! (symlinks are never followed), and draining the work queue until it is
//! finished, emitting every reachable regular file exactly once.

use crate::work_queue::WorkQueue;
use vstd::prelude::*;
use vstd::seq_lib::lemma_multiset_commutative;

verus! {

broadcast use vstd::seq_lib::group_to_multiset_ensures, vstd::multiset::group_multiset_axioms;

/// What a directory entry turned out to be, after a stat that does not
/// follow symlinks.
#[derive(Clone, Copy, Debug, PartialEq, Eq, Structural)]
pub enum EntryKind {
    File,
    Dir,
    Symlink,
    Other,
}

/// One listed directory entry, identified by an opaque id.
#[derive(Clone, Copy, Debug, PartialEq, Eq, Structural)]
pub struct RawEntry {
    pub id: u64,
    pub kind: EntryKind,
}

/// Ids of the regular files among `s`, in listing order.
pub open spec fn file_ids(s: Seq<RawEntry>) -> Seq<u64>
    decreases s.len(),
{
    if s.len() == 0 {
        Seq::empty()
    } else {
        file_ids(s.drop_last()) + if s.last().kind is File {
            seq![s.last().id]
        } else {
            Seq::empty()
        }
    }
}

/// Ids of the subdirectories among `s`, in listing order.
pub open spec fn dir_ids(s: Seq<RawEntry>) -> Seq<u64>
    decreases s.len(),
{
    if s.len() == 0 {
        Seq::empty()
    } else {
        dir_ids(s.drop_last()) + if s.last().kind is Dir {
            seq![s.last().id]
        } else {
            Seq::empty()
        }
    }
}

/// Split one directory listing: regular files go downstream, subdirectories
/// go back to the work queue. A symlink, whether to a file or a directory,
/// lands in neither list, so it is never hashed and never traversed.
pub fn classify_entries(entries: &Vec<RawEntry>) -> (r: (Vec<u64>, Vec<u64>))
    ensures
        r.0@ == file_ids(entries@),
        r.1@ == dir_ids(entries@),
{
    let mut files: Vec<u64> = Vec::new();
    let mut dirs: Vec<u64> = Vec::new();
    let mut i: usize = 0;
    proof {
        assert(files@ =~= file_ids(entries@.take(0)));
        assert(dirs@ =~= dir_ids(entries@.take(0)));
    }
    while i < entries.len()
        invariant
            i <= entries@.len(),
            files@ == file_ids(entries@.take(i as int)),
            dirs@ == dir_ids(entries@.take(i as int)),
        decreases entries@.len() - i,
    {
        let e = entries[i];
        match e.kind {
            EntryKind::File => {
                files.push(e.id);
            },
            EntryKind::Dir => {
                dirs.push(e.id);
            },
            _ => {},
        }
        proof {
            assert(entries@.take(i + 1).drop_last() =~= entries@.take(i as int));
            assert(entries@.take(i + 1).last() == entries@[i as int]);
            assert(files@ =~= file_ids(entries@.take(i + 1)));
            assert(dirs@ =~= dir_ids(entries@.take(i + 1)));
        }
        i = i + 1;
    }
    proof {
        assert(entries@.take(entries@.len() as int) =~= entries@);
    }
    (files, dirs)
}

/// One directory of the finite tree handed to the scan driver: its regular
/// files (by id) and its subdirectories (by index into the tree).
pub struct DirNode {
    pub files: Vec<u64>,
    pub subdirs: Vec<usize>,
}

/// A well-formed tree: every subdirectory index points forward, so the
/// structure is finite and acyclic, as a real directory tree walked without
/// following symlinks is.
pub open spec fn tree_wf(t: Seq<DirNode>) -> bool {
    forall|i: int, k: int|
        0 <= i < t.len() && 0 <= k < t[i].subdirs@.len() ==> i < #[trigger] t[i].subdirs@[k]
            < t.len()
}

/// All regular files reachable from directory `i`: its own and, recursively,
/// those of its subdirectories.
pub open spec fn subtree_files(t: Seq<DirNode>, i: int) -> Seq<u64>
    decreases t.len() - i, t[i].subdirs@.len() + 1,
    when tree_wf(t) && 0 <= i < t.len()
{
    t[i].files@ + child_files(t, i, 0)
}

pub open spec fn child_files(t: Seq<DirNode>, i: int, k: int) -> Seq<u64>
    decreases t.len() - i, t[i].subdirs@.len() - k,
    when tree_wf(t) && 0 <= i < t.len() && 0 <= k
{
    if k >= t[i].subdirs@.len() {
        Seq::empty()
    } else {
        subtree_files(t, t[i].subdirs@[k] as int) + child_files(t, i, k + 1)
    }
}

/// How many directories the subtree at `i` holds, itself included.
pub open spec fn subtree_size(t: Seq<DirNode>, i: int) -> nat
    decreases t.len() - i, t[i].subdirs@.len() + 1,
    when tree_wf(t) && 0 <= i < t.len()
{
    1 + child_sizes(t, i, 0)
}

pub open spec fn child_sizes(t: Seq<DirNode>, i: int, k: int) -> nat
    decreases t.len() - i, t[i].subdirs@.len() - k,
    when tree_wf(t) && 0 <= i < t.len() && 0 <= k
{
    if k >= t[i].subdirs@.len() {
        0
    } else {
        subtree_size(t, t[i].subdirs@[k] as int) + child_sizes(t, i, k + 1)
    }
}

/// Files reachable from all directories pending in the queue.
pub open spec fn queue_files(t: Seq<DirNode>, q: Seq<usize>) -> Seq<u64>
    decreases q.len(),
{
    if q.len() == 0 {
        Seq::empty()
    } else {
        queue_files(t, q.drop_last()) + subtree_files(t, q.last() as int)
    }
}

/// Directories reachable from all directories pending in the queue.
pub open spec fn queue_size(t: Seq<DirNode>, q: Seq<usize>) -> nat
    decreases q.len(),
{
    if q.len() == 0 {
        0
    } else {
        queue_size(t, q.drop_last()) + subtree_size(t, q.last() as int)
    }
}

/// Drain the work queue over a finite tree, starting from `root`. The queue
/// self-feeds: expanding one directory pushes its subdirectories back. The
/// loop provably terminates — the queue reports finished — and the emitted
/// files are exactly the regular files reachable from `root`, each exactly
/// once, whatever order the queue serves directories in.
#[verifier::rlimit(100)]
pub fn scan_tree(tree: &Vec<DirNode>, root: usize) -> (r: Vec<u64>)
    requires
        tree_wf(tree@),
        (root as int) < tree@.len(),
    ensures
        r@.to_multiset() == subtree_files(tree@, root as int).to_multiset(),
{
    let mut q: WorkQueue<usize> = WorkQueue::new();
    q.push(root);
    let mut out: Vec<u64> = Vec::new();
    proof {
        assert(q.items@.drop_last() =~= Seq::<usize>::empty());
        assert(queue_files(tree@, Seq::<usize>::empty()) =~= Seq::<u64>::empty());
        assert(queue_size(tree@, Seq::<usize>::empty()) == 0);
        assert(queue_files(tree@, q.items@) =~= subtree_files(tree@, root as int));
        assert(queue_size(tree@, q.items@) == subtree_size(tree@, root as int));
        assert(out@.to_multiset().add(queue_files(tree@, q.items@).to_multiset())
            =~= subtree_files(tree@, root as int).to_multiset());
    }
    loop
        invariant_except_break
            tree_wf(tree@),
            q.in_flight == 0,
            forall|j: int| 0 <= j < q.items@.len() ==> (#[trigger] q.items@[j] as int)
                < tree@.len(),
            out@.to_multiset().add(queue_files(tree@, q.items@).to_multiset()) == subtree_files(
                tree@,
                root as int,
            ).to_multiset(),
        ensures
            q.items@.len() == 0 && q.in_flight == 0,
            out@.to_multiset() == subtree_files(tree@, root as int).to_multiset(),
        decreases queue_size(tree@, q.items@),
    {
        let ghost items_before = q.items@;
        let d = match q.pop() {
            None => {
                proof {
                    assert(queue_files(tree@, q.items@) =~= Seq::<u64>::empty());
                    assert(out@.to_multiset() =~= out@.to_multiset().add(
                        Seq::<u64>::empty().to_multiset(),
                    ));
                }
                break ;
            },
            Some(d) => d,
        };
        let ghost base_items = q.items@;
        proof {
            assert(queue_files(tree@, items_before) == queue_files(tree@, base_items)
                + subtree_files(tree@, d as int));
            assert(queue_size(tree@, items_before) == queue_size(tree@, base_items)
                + subtree_size(tree@, d as int));
        }
        let node = &tree[d];
        let ghost out_before = out@;
        out.extend_from_slice(node.files.as_slice());
        let mut k: usize = 0;
        #[verifier::loop_isolation(false)]
        while k < node.subdirs.len()
            invariant
                tree_wf(tree@),
                (d as int) < tree@.len(),
                node == &tree[d as int],
                k <= node.subdirs@.len(),
                q.in_flight == 1,
                out@ == out_before + node.files@,
                queue_files(tree@, items_before) == queue_files(tree@, base_items)
                    + subtree_files(tree@, d as int),
                queue_size(tree@, items_before) == queue_size(tree@, base_items) + subtree_size(
                    tree@,
                    d as int,
                ),
                forall|j: int| 0 <= j < q.items@.len() ==> (#[trigger] q.items@[j] as int)
                    < tree@.len(),
                queue_files(tree@, q.items@) + child_files(tree@, d as int, k as int)
                    == queue_files(tree@, base_items) + child_files(tree@, d as int, 0),
                queue_size(tree@, q.items@) + child_sizes(tree@, d as int, k as int) == queue_size(
                    tree@,
                    base_items,
                ) + child_sizes(tree@, d as int, 0),
            decreases node.subdirs@.len() - k,
        {
            let c = node.subdirs[k];
            let ghost q_items = q.items@;
            q.push(c);
            proof {
                assert(q.items@.drop_last() =~= q_items);
                assert(queue_files(tree@, q.items@) == queue_files(tree@, q_items)
                    + subtree_files(tree@, c as int));
                assert(child_files(tree@, d as int, k as int) == subtree_files(tree@, c as int)
                    + child_files(tree@, d as int, k + 1));
                assert(queue_files(tree@, q.items@) + child_files(tree@, d as int, k + 1)
                    =~= queue_files(tree@, q_items) + child_files(tree@, d as int, k as int));
                assert(child_sizes(tree@, d as int, k as int) == subtree_size(tree@, c as int)
                    + child_sizes(tree@, d as int, k + 1));
            }
            k = k + 1;
        }
        q.complete();
        proof {
            assert(child_files(tree@, d as int, node.subdirs@.len() as int) =~= Seq::<
                u64,
            >::empty());
            assert(queue_files(tree@, q.items@) + Seq::<u64>::empty() =~= queue_files(
                tree@,
                q.items@,
            ));
            assert(queue_files(tree@, q.items@) == queue_files(tree@, base_items) + child_files(
                tree@,
                d as int,
                0,
            ));
            assert(subtree_files(tree@, d as int) == node.files@ + child_files(tree@, d as int, 0));
            // multiset accounting: what moved out of the queue moved into `out`
            lemma_multiset_commutative(out_before, node.files@);
            lemma_multiset_commutative(queue_files(tree@, base_items), child_files(
                tree@,
                d as int,
                0,
            ));
            lemma_multiset_commutative(queue_files(tree@, base_items), subtree_files(
                tree@,
                d as int,
            ));
            lemma_multiset_commutative(node.files@, child_files(tree@, d as int, 0));
            let ghost m_out = out_before.to_multiset();
            let ghost m_files = node.files@.to_multiset();
            let ghost m_base = queue_files(tree@, base_items).to_multiset();
            let ghost m_child = child_files(tree@, d as int, 0).to_multiset();
            assert(out@.to_multiset() == m_out.add(m_files));
            assert(queue_files(tree@, q.items@).to_multiset() == m_base.add(m_child));
            assert(queue_files(tree@, items_before).to_multiset() == m_base.add(
                subtree_files(tree@, d as int).to_multiset(),
            ));
            assert(subtree_files(tree@, d as int).to_multiset() == m_files.add(m_child));
            assert(out@.to_multiset().add(queue_files(tree@, q.items@).to_multiset())
                =~= out_before.to_multiset().add(queue_files(tree@, items_before).to_multiset()));
            // termination: one directory left the queue for good
            assert(child_sizes(tree@, d as int, node.subdirs@.len() as int) == 0);
            assert(queue_size(tree@, q.items@) == queue_size(tree@, base_items) + child_sizes(
                tree@,
                d as int,
                0,
            ));
            assert(subtree_size(tree@, d as int) == 1 + child_sizes(tree@, d as int, 0));
            assert(queue_size(tree@, q.items@) < queue_size(tree@, items_before));
        }
    }
    out
}

} // verus!
