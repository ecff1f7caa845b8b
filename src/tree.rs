use vstd::prelude::*;
use crate::path::{is_prefix, FsPath, PathView};

verus! {

/// Why an operation failed.
#[derive(Debug, Clone, Copy, PartialEq, Eq, Structural)]
pub enum FsError {
    /// An empty path list, an empty path, or a file where a directory is needed.
    InvalidInput,
    /// A path that the operation needs does not exist.
    NotFound,
    /// The host refused access.
    PermissionDenied,
    /// The directory to create is already there.
    AlreadyExists,
    /// Any other failure of the host filesystem.
    IoFailure,
}

/// What stands at a path. `content` identifies the bytes of a file: two files
/// hold the same bytes when their `content` is equal. `size` is the length that
/// the host's metadata reports.
#[derive(Debug, Clone, Copy, PartialEq, Eq, Structural)]
pub enum Node {
    File { content: u64, size: u64 },
    Dir { size: u64 },
}

/// The content of a file that was just created.
pub const EMPTY_CONTENT: u64 = 0;

/// One change that the host filesystem has to make, in the order recorded.
#[derive(Debug)]
pub enum Op {
    CreateDir(FsPath),
    CreateFile(FsPath),
    CopyFile(FsPath, FsPath),
    RemoveFile(FsPath),
    RemoveDirAll(FsPath),
}

/// One path of the tree and what stands there.
#[derive(Debug)]
pub struct Entry {
    pub path: FsPath,
    pub node: Node,
}

/// The part of a directory tree that an operation sees, as a list of entries,
/// and the changes made to it so far.
#[derive(Debug)]
pub struct FileTree {
    pub entries: Vec<Entry>,
    pub journal: Vec<Op>,
}

pub open spec fn map_of(es: Seq<Entry>) -> Map<PathView, Node>
    decreases es.len(),
{
    if es.len() == 0 {
        Map::empty()
    } else {
        map_of(es.drop_last()).insert(es.last().path@, es.last().node)
    }
}

pub open spec fn distinct(es: Seq<Entry>) -> bool {
    forall|i: int, j: int|
        0 <= i < j < es.len() ==> #[trigger] es[i].path@ != #[trigger] es[j].path@
}

/// Every path is non-empty, and the parent of every path of two or more
/// levels is a directory of the tree.
pub open spec fn closed(m: Map<PathView, Node>) -> bool {
    forall|k: PathView|
        #[trigger] m.contains_key(k) ==> k.len() > 0 && (k.len() > 1 ==> m.contains_key(
            k.drop_last(),
        ) && m[k.drop_last()] is Dir)
}

/// The tree without `p` and everything below it.
pub open spec fn remove_under(m: Map<PathView, Node>, p: PathView) -> Map<PathView, Node> {
    Map::new(|k: PathView| m.contains_key(k) && !is_prefix(p, k), |k: PathView| m[k])
}

/// `d` is a directory of the tree.
pub open spec fn is_dir_in(m: Map<PathView, Node>, d: PathView) -> bool {
    m.contains_key(d) && m[d] is Dir
}

/// `f` is a file of the tree.
pub open spec fn is_file_in(m: Map<PathView, Node>, f: PathView) -> bool {
    m.contains_key(f) && m[f] is File
}

/// The paths one level below `d`.
pub open spec fn children(m: Map<PathView, Node>, d: PathView) -> Set<PathView> {
    Set::new(|k: PathView| m.contains_key(k) && k.len() == d.len() + 1 && is_prefix(d, k))
}

/// Two trees with the same paths, where each path holds a directory in both,
/// or the same file in both.
pub open spec fn same_shape(a: Map<PathView, Node>, b: Map<PathView, Node>) -> bool {
    &&& a.dom() == b.dom()
    &&& forall|k: PathView| #[trigger]
        a.contains_key(k) ==> (a[k] is Dir && b[k] is Dir) || a[k] == b[k]
}

/// What performing `op` does to a tree.
pub open spec fn apply(m: Map<PathView, Node>, op: Op) -> Map<PathView, Node> {
    match op {
        Op::CreateDir(p) => m.insert(p@, Node::Dir { size: 0 }),
        Op::CreateFile(p) => m.insert(p@, Node::File { content: EMPTY_CONTENT, size: 0 }),
        Op::CopyFile(a, b) => if m.contains_key(a@) {
            m.insert(b@, m[a@])
        } else {
            m
        },
        Op::RemoveFile(p) => remove_under(m, p@),
        Op::RemoveDirAll(p) => remove_under(m, p@),
    }
}

/// What performing `ops` in order does to a tree.
pub open spec fn replay(m: Map<PathView, Node>, ops: Seq<Op>) -> Map<PathView, Node>
    decreases ops.len(),
{
    if ops.len() == 0 {
        m
    } else {
        apply(replay(m, ops.drop_last()), ops.last())
    }
}

/// The journal grew from `j0` to `j1`, and performing what was added turns
/// the tree `m0` into one of the same shape as `m1`.
pub open spec fn replays_to(
    m0: Map<PathView, Node>,
    j0: Seq<Op>,
    m1: Map<PathView, Node>,
    j1: Seq<Op>,
) -> bool {
    &&& j0.len() <= j1.len()
    &&& j1.take(j0.len() as int) == j0
    &&& same_shape(replay(m0, j1.skip(j0.len() as int)), m1)
}

pub proof fn lemma_shape_trans(a: Map<PathView, Node>, b: Map<PathView, Node>, c: Map<PathView, Node>)
    requires
        same_shape(a, b),
        same_shape(b, c),
    ensures
        same_shape(a, c),
{
    assert forall|k: PathView| #[trigger] a.contains_key(k) implies (a[k] is Dir && c[k] is Dir) || a[k] == c[k] by {
        assert(b.contains_key(k));
    }
}

pub proof fn lemma_apply_shape(a: Map<PathView, Node>, b: Map<PathView, Node>, op: Op)
    requires
        same_shape(a, b),
    ensures
        same_shape(apply(a, op), apply(b, op)),
{
    let x = apply(a, op);
    let y = apply(b, op);
    match op {
        Op::CopyFile(f, t) => {
            if a.contains_key(f@) {
                assert(b.contains_key(f@));
            } else {
                assert(!b.contains_key(f@));
            }
        },
        _ => {},
    }
    assert(x.dom() =~= y.dom()) by {
        assert forall|k: PathView| x.contains_key(k) == y.contains_key(k) by {
            assert(a.contains_key(k) == b.contains_key(k));
        }
    }
    assert forall|k: PathView| #[trigger] x.contains_key(k) implies (x[k] is Dir && y[k] is Dir) || x[k] == y[k] by {
        assert(a.contains_key(k) == b.contains_key(k));
    }
}

pub proof fn lemma_replays_refl(m: Map<PathView, Node>, j: Seq<Op>)
    ensures
        replays_to(m, j, m, j),
{
    assert(j.take(j.len() as int) =~= j);
    assert(j.skip(j.len() as int) =~= Seq::<Op>::empty());
    assert(m.dom() =~= m.dom());
}

/// One more change, performed on `m1`, gives (the shape of) `m2`.
pub proof fn lemma_replays_step(
    m0: Map<PathView, Node>,
    j0: Seq<Op>,
    m1: Map<PathView, Node>,
    j1: Seq<Op>,
    op: Op,
    m2: Map<PathView, Node>,
)
    requires
        replays_to(m0, j0, m1, j1),
        same_shape(apply(m1, op), m2),
    ensures
        replays_to(m0, j0, m2, j1.push(op)),
{
    let j2 = j1.push(op);
    assert(j2.take(j0.len() as int) =~= j0);
    assert(j2.skip(j0.len() as int) =~= j1.skip(j0.len() as int).push(op));
    assert(j2.skip(j0.len() as int).drop_last() =~= j1.skip(j0.len() as int));
    lemma_apply_shape(replay(m0, j1.skip(j0.len() as int)), m1, op);
    lemma_shape_trans(replay(m0, j2.skip(j0.len() as int)), apply(m1, op), m2);
}

proof fn lemma_replay_append(m: Map<PathView, Node>, xs: Seq<Op>, ys: Seq<Op>)
    ensures
        replay(m, xs + ys) == replay(replay(m, xs), ys),
    decreases ys.len(),
{
    if ys.len() == 0 {
        assert(xs + ys =~= xs);
    } else {
        lemma_replay_append(m, xs, ys.drop_last());
        assert((xs + ys).drop_last() =~= xs + ys.drop_last());
    }
}

proof fn lemma_replay_shape(a: Map<PathView, Node>, b: Map<PathView, Node>, ops: Seq<Op>)
    requires
        same_shape(a, b),
    ensures
        same_shape(replay(a, ops), replay(b, ops)),
    decreases ops.len(),
{
    if ops.len() > 0 {
        lemma_replay_shape(a, b, ops.drop_last());
        lemma_apply_shape(replay(a, ops.drop_last()), replay(b, ops.drop_last()), ops.last());
    }
}

pub proof fn lemma_replays_trans(
    m0: Map<PathView, Node>,
    j0: Seq<Op>,
    m1: Map<PathView, Node>,
    j1: Seq<Op>,
    m2: Map<PathView, Node>,
    j2: Seq<Op>,
)
    requires
        replays_to(m0, j0, m1, j1),
        replays_to(m1, j1, m2, j2),
    ensures
        replays_to(m0, j0, m2, j2),
{
    let a = j1.skip(j0.len() as int);
    let b = j2.skip(j1.len() as int);
    assert(j2.take(j0.len() as int) =~= j1.take(j0.len() as int)) by {
        assert(j2.take(j1.len() as int) == j1);
        assert forall|i: int| 0 <= i < j0.len() implies j2.take(j0.len() as int)[i] == j1.take(j0.len() as int)[i] by {
            assert(j2.take(j1.len() as int)[i] == j2[i]);
        }
    }
    assert(j2.skip(j0.len() as int) =~= a + b) by {
        assert(j2.take(j1.len() as int) == j1);
        assert forall|i: int| 0 <= i < j2.len() - j0.len() implies #[trigger] j2.skip(j0.len() as int)[i] == (a + b)[i] by {
            if i < a.len() {
                assert(j2.take(j1.len() as int)[i + j0.len()] == j2[i + j0.len()]);
            }
        }
    }
    lemma_replay_append(m0, a, b);
    lemma_replay_shape(replay(m0, a), m1, b);
    lemma_shape_trans(replay(m0, a + b), replay(m1, b), m2);
}

pub proof fn lemma_map_of(es: Seq<Entry>)
    ensures
        forall|p: PathView| #[trigger]
            map_of(es).contains_key(p) <==> exists|i: int| 0 <= i < es.len() && es[i].path@ == p,
        distinct(es) ==> forall|i: int|
            0 <= i < es.len() ==> #[trigger] map_of(es)[es[i].path@] == es[i].node,
    decreases es.len(),
{
    if es.len() > 0 {
        let init = es.drop_last();
        lemma_map_of(init);
        assert forall|p: PathView| #[trigger]
            map_of(es).contains_key(p) <==> exists|i: int|
                0 <= i < es.len() && es[i].path@ == p by {
            if map_of(es).contains_key(p) && p != es.last().path@ {
                let i = choose|i: int| 0 <= i < init.len() && init[i].path@ == p;
                assert(es[i].path@ == p);
            }
            if exists|i: int| 0 <= i < es.len() && es[i].path@ == p {
                let i = choose|i: int| 0 <= i < es.len() && es[i].path@ == p;
                if i < init.len() {
                    assert(init[i].path@ == p);
                }
            }
        }
        if distinct(es) {
            assert forall|i: int| 0 <= i < es.len() implies #[trigger] map_of(es)[es[i].path@]
                == es[i].node by {
                if i < init.len() {
                    assert(init[i] == es[i]);
                    assert(es[i].path@ != es[es.len() - 1].path@);
                }
            }
        }
    }
}

impl View for FileTree {
    type V = Map<PathView, Node>;

    open spec fn view(&self) -> Map<PathView, Node> {
        map_of(self.entries@)
    }
}

impl Entry {
    pub fn duplicate(&self) -> (r: Entry)
        ensures
            r.path@ == self.path@,
            r.node == self.node,
    {
        Entry { path: self.path.duplicate(), node: self.node }
    }
}

impl FileTree {
    pub open spec fn wf(&self) -> bool {
        distinct(self.entries@) && closed(self@)
    }

    /// An empty tree: only the root, which is always there.
    pub fn new() -> (r: FileTree)
        ensures
            r.wf(),
            r@ == Map::<PathView, Node>::empty(),
            r.journal@.len() == 0,
    {
        FileTree { entries: Vec::new(), journal: Vec::new() }
    }

    /// Where `p` stands in `entries`.
    pub fn find(&self, p: &FsPath) -> (r: Option<usize>)
        requires
            distinct(self.entries@),
        ensures
            r is None <==> !self@.contains_key(p@),
            r matches Some(i) ==> i < self.entries@.len() && self.entries@[i as int].path@ == p@
                && self@[p@] == self.entries@[i as int].node,
    {
        proof {
            lemma_map_of(self.entries@);
        }
        let mut i: usize = 0;
        while i < self.entries.len()
            invariant
                i <= self.entries@.len(),
                distinct(self.entries@),
                forall|j: int| 0 <= j < i ==> #[trigger] self.entries@[j].path@ != p@,
            decreases self.entries.len() - i,
        {
            if self.entries[i].path.same(p) {
                proof {
                    lemma_map_of(self.entries@);
                    assert(self.entries@[i as int].path@ == p@);
                    assert(map_of(self.entries@)[self.entries@[i as int].path@]
                        == self.entries@[i as int].node);
                }
                return Some(i);
            }
            i = i + 1;
        }
        proof {
            lemma_map_of(self.entries@);
        }
        None
    }

    /// What stands at `p`, if anything.
    pub fn get(&self, p: &FsPath) -> (r: Option<Node>)
        requires
            distinct(self.entries@),
        ensures
            r == (if self@.contains_key(p@) {
                Some(self@[p@])
            } else {
                None
            }),
    {
        match self.find(p) {
            Some(i) => Some(self.entries[i].node),
            None => None,
        }
    }

    /// Sets what stands at `p`, replacing what stood there.
    pub fn put(&mut self, p: FsPath, node: Node)
        requires
            distinct(old(self).entries@),
        ensures
            distinct(final(self).entries@),
            final(self)@ == old(self)@.insert(p@, node),
            final(self).journal@ == old(self).journal@,
    {
        let ghost key = p@;
        proof {
            lemma_map_of(self.entries@);
        }
        match self.find(&p) {
            Some(i) => {
                let ghost before = self.entries@;
                self.entries.set(i, Entry { path: p, node });
                proof {
                    let after = self.entries@;
                    assert(forall|j: int| 0 <= j < after.len() && j != i ==> after[j] == before[j]);
                    assert(distinct(after)) by {
                        assert forall|a: int, b: int|
                            0 <= a < b < after.len() implies #[trigger] after[a].path@
                            != #[trigger] after[b].path@ by {
                            if a != i && b != i {
                                assert(before[a].path@ != before[b].path@);
                            } else if a == i {
                                assert(before[i as int].path@ != before[b].path@);
                            } else {
                                assert(before[a].path@ != before[i as int].path@);
                            }
                        }
                    }
                    lemma_map_of(after);
                    assert forall|k: PathView| #[trigger]
                        map_of(after).contains_key(k) <==> map_of(before).insert(
                            key,
                            node,
                        ).contains_key(k) by {
                        if map_of(before).contains_key(k) {
                            let j = choose|j: int| 0 <= j < before.len() && before[j].path@ == k;
                            assert(after[j].path@ == k);
                        }
                        if map_of(after).contains_key(k) {
                            let j = choose|j: int| 0 <= j < after.len() && after[j].path@ == k;
                            assert(before[j].path@ == k);
                        }
                    }
                    assert forall|k: PathView| #[trigger]
                        map_of(after).contains_key(k) implies map_of(after)[k] == map_of(
                        before,
                    ).insert(key, node)[k] by {
                        let j = choose|j: int| 0 <= j < after.len() && after[j].path@ == k;
                        assert(after[j].path@ == k);
                        assert(before[j].path@ == k);
                    }
                    assert(map_of(after) =~= map_of(before).insert(key, node));
                }
            },
            None => {
                let ghost before = self.entries@;
                self.entries.push(Entry { path: p, node });
                proof {
                    let after = self.entries@;
                    assert(after.drop_last() =~= before);
                    assert forall|a: int, b: int|
                        0 <= a < b < after.len() implies #[trigger] after[a].path@
                        != #[trigger] after[b].path@ by {
                        if b < before.len() {
                            assert(before[a].path@ != before[b].path@);
                        } else {
                            assert(before[a].path@ == after[a].path@);
                        }
                    }
                }
            },
        }
    }

    /// Takes `p` and everything below it out of the tree.
    pub fn drop_under(&mut self, p: &FsPath)
        requires
            distinct(old(self).entries@),
        ensures
            distinct(final(self).entries@),
            final(self)@ == remove_under(old(self)@, p@),
            final(self).journal@ == old(self).journal@,
    {
        let ghost before = self.entries@;
        proof {
            lemma_map_of(before);
        }
        let mut old_entries: Vec<Entry> = Vec::new();
        std::mem::swap(&mut old_entries, &mut self.entries);
        let mut kept: Vec<Entry> = Vec::new();
        let mut i: usize = 0;
        while i < old_entries.len()
            invariant
                old_entries@ == before,
                distinct(before),
                i <= before.len(),
                distinct(kept@),
                forall|k: PathView| #[trigger]
                    map_of(kept@).contains_key(k) <==> exists|j: int|
                        0 <= j < i && before[j].path@ == k && !is_prefix(p@, k),
                forall|a: int|
                    0 <= a < kept@.len() ==> exists|j: int|
                        0 <= j < i && #[trigger] kept@[a].path@ == before[j].path@ && kept@[a].node
                            == before[j].node,
            decreases before.len() - i,
        {
            if !old_entries[i].path.starts_with(p) {
                let ghost prev = kept@;
                let e = old_entries[i].duplicate();
                kept.push(e);
                proof {
                    assert(kept@.drop_last() =~= prev);
                    lemma_map_of(prev);
                    assert forall|a: int, b: int|
                        0 <= a < b < kept@.len() implies #[trigger] kept@[a].path@
                        != #[trigger] kept@[b].path@ by {
                        if b < prev.len() {
                            assert(prev[a].path@ != prev[b].path@);
                        } else {
                            assert(prev[a] == kept@[a]);
                            let j = choose|j: int|
                                0 <= j < i && #[trigger] prev[a].path@ == before[j].path@
                                    && prev[a].node == before[j].node;
                            assert(before[j].path@ != before[i as int].path@);
                        }
                    }
                    assert forall|k: PathView| #[trigger]
                        map_of(kept@).contains_key(k) <==> exists|j: int|
                            0 <= j < i + 1 && before[j].path@ == k && !is_prefix(p@, k) by {
                        if exists|j: int| 0 <= j < i + 1 && before[j].path@ == k && !is_prefix(p@, k) {
                            let j = choose|j: int| 0 <= j < i + 1 && before[j].path@ == k && !is_prefix(p@, k);
                            if j < i {
                                assert(map_of(prev).contains_key(k));
                            }
                        }
                    }
                    assert forall|a: int|
                        0 <= a < kept@.len() implies exists|j: int|
                            0 <= j < i + 1 && #[trigger] kept@[a].path@ == before[j].path@
                                && kept@[a].node == before[j].node by {
                        if a < prev.len() {
                            assert(prev[a] == kept@[a]);
                        } else {
                            assert(kept@[a].path@ == before[i as int].path@);
                        }
                    }
                }
            }
            i = i + 1;
        }
        self.entries = kept;
        proof {
            let after = self.entries@;
            lemma_map_of(after);
            let target = remove_under(map_of(before), p@);
            assert forall|k: PathView| #[trigger]
                map_of(after).contains_key(k) <==> target.contains_key(k) by {
                if target.contains_key(k) {
                    assert(map_of(before).contains_key(k));
                    let j = choose|j: int| 0 <= j < before.len() && before[j].path@ == k;
                }
            }
            assert forall|k: PathView| #[trigger]
                map_of(after).contains_key(k) implies map_of(after)[k] == target[k] by {
                let a = choose|a: int| 0 <= a < after.len() && after[a].path@ == k;
                let j = choose|j: int|
                    0 <= j < before.len() && #[trigger] after[a].path@ == before[j].path@
                        && after[a].node == before[j].node;
            }
            assert(map_of(after) =~= target);
        }
    }

    /// Adds what the host reported at `p` to the tree.
    pub fn add_entry(&mut self, p: FsPath, node: Node) -> (r: Result<(), FsError>)
        requires
            old(self).wf(),
        ensures
            final(self).wf(),
            final(self).journal@ == old(self).journal@,
            r is Ok <==> p@.len() > 0 && !old(self)@.contains_key(p@) && (p@.len() > 1
                ==> is_dir_in(old(self)@, p@.drop_last())),
            r is Ok ==> final(self)@ == old(self)@.insert(p@, node),
            r is Err ==> final(self)@ == old(self)@ && r == Err::<(), FsError>(
                FsError::InvalidInput,
            ),
    {
        if p.len() == 0 {
            return Err(FsError::InvalidInput);
        }
        if self.find(&p).is_some() {
            return Err(FsError::InvalidInput);
        }
        if p.len() > 1 {
            let parent = p.parent();
            match self.get(&parent) {
                Some(Node::Dir { .. }) => {},
                _ => {
                    return Err(FsError::InvalidInput);
                },
            }
        }
        let ghost m = self@;
        let ghost key = p@;
        self.put(p, node);
        proof {
            assert forall|k: PathView| #[trigger] self@.contains_key(k) implies k.len() > 0 && (
            k.len() > 1 ==> self@.contains_key(k.drop_last()) && self@[k.drop_last()] is Dir) by {
                if k != key {
                    assert(m.contains_key(k));
                    if k.len() > 1 && k.drop_last() == key {
                        assert(m.contains_key(k.drop_last()));
                    }
                }
            }
        }
        Ok(())
    }

    /// Hands out the changes recorded so far, in order, and forgets them.
    pub fn take_journal(&mut self) -> (r: Vec<Op>)
        ensures
            r@ == old(self).journal@,
            final(self).journal@.len() == 0,
            final(self).entries@ == old(self).entries@,
    {
        let mut r: Vec<Op> = Vec::new();
        std::mem::swap(&mut r, &mut self.journal);
        r
    }
}

} // verus!
