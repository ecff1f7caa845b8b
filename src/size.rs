use vstd::prelude::*;
use crate::path::{is_prefix, FsPath, PathView};
use crate::tree::{Entry, FileTree, FsError, Node};

verus! {

/// The length that the metadata reports for a node.
pub open spec fn node_size(n: Node) -> nat {
    match n {
        Node::File { size, .. } => size as nat,
        Node::Dir { size } => size as nat,
    }
}

/// The sum of the reported lengths of every entry strictly below `p`:
/// directories count with their own length, as files do.
pub open spec fn size_below(es: Seq<Entry>, p: PathView) -> nat
    decreases es.len(),
{
    if es.len() == 0 {
        0
    } else {
        let e = es.last();
        size_below(es.drop_last(), p) + if is_prefix(p, e.path@) && e.path@.len() > p.len() {
            node_size(e.node)
        } else {
            0
        }
    }
}

/// The size that `get_size` reports for `p`: a file's own length, or for a
/// directory the sum over everything below it.
pub open spec fn size_of(fs: &FileTree, p: PathView) -> nat {
    if fs@[p] is File {
        node_size(fs@[p])
    } else {
        size_below(fs.entries@, p)
    }
}

fn size_field(n: Node) -> (r: u64)
    ensures
        r == node_size(n),
{
    match n {
        Node::File { size, .. } => size,
        Node::Dir { size } => size,
    }
}

/// The size of `path` in bytes: a file's length, or for a directory the
/// lengths of everything below it added up, directories' own included.
pub fn get_size(fs: &FileTree, path: &FsPath) -> (r: Result<u64, FsError>)
    requires
        fs.wf(),
    ensures
        !fs@.contains_key(path@) ==> r == Err::<u64, FsError>(FsError::NotFound),
        fs@.contains_key(path@) ==> (r is Ok <==> size_of(fs, path@) <= u64::MAX),
        fs@.contains_key(path@) && size_of(fs, path@) > u64::MAX ==> r == Err::<u64, FsError>(
            FsError::IoFailure,
        ),
        r matches Ok(n) ==> n == size_of(fs, path@),
{
    let node = match fs.get(path) {
        None => {
            return Err(FsError::NotFound);
        },
        Some(n) => n,
    };
    if let Node::File { size, .. } = node {
        return Ok(size);
    }
    let mut total: u64 = 0;
    let mut i: usize = 0;
    while i < fs.entries.len()
        invariant
            fs@.contains_key(path@),
            !(fs@[path@] is File),
            i <= fs.entries@.len(),
            total == size_below(fs.entries@.take(i as int), path@),
        decreases fs.entries.len() - i,
    {
        proof {
            assert(fs.entries@.take(i + 1).drop_last() =~= fs.entries@.take(i as int));
        }
        let e = &fs.entries[i];
        if e.path.len() > path.len() && e.path.starts_with(path) {
            let n = size_field(e.node);
            match total.checked_add(n) {
                Some(t) => {
                    total = t;
                },
                None => {
                    proof {
                        lemma_size_grows(fs.entries@, path@, i + 1);
                        assert(fs.entries@.take(fs.entries@.len() as int) =~= fs.entries@);
                    }
                    return Err(FsError::IoFailure);
                },
            }
        }
        i = i + 1;
    }
    proof {
        assert(fs.entries@.take(fs.entries@.len() as int) =~= fs.entries@);
    }
    Ok(total)
}

/// Adding entries never makes the sum smaller.
proof fn lemma_size_grows(es: Seq<Entry>, p: PathView, i: int)
    requires
        0 <= i <= es.len(),
    ensures
        size_below(es.take(i), p) <= size_below(es, p),
    decreases es.len() - i,
{
    if i < es.len() {
        lemma_size_grows(es, p, i + 1);
        assert(es.take(i + 1).drop_last() =~= es.take(i));
    } else {
        assert(es.take(i) =~= es);
    }
}

} // verus!
