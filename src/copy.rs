use vstd::prelude::*;
use crate::path::{is_prefix, FsPath, PathView};
use crate::ops::{remove_all, rm};
use crate::utils::views;
use crate::tree::{
    apply, closed, distinct, lemma_map_of, lemma_replays_refl, lemma_replays_step, lemma_replays_trans,
    map_of, replays_to, same_shape, Entry, FileTree, FsError, Node, Op,
};

verus! {

/// Where a copy of `s` made into the directory `to` goes.
pub open spec fn target_of(s: PathView, to: PathView) -> PathView {
    to.push(s.last())
}

/// The path below `s` that `k`, below the target `t`, is the copy of.
pub open spec fn origin_of(s: PathView, t: PathView, k: PathView) -> PathView {
    s + k.skip(t.len() as int)
}

/// `k` is the copy of a path of `m` below `s`.
pub open spec fn is_copy(m: Map<PathView, Node>, s: PathView, t: PathView, k: PathView) -> bool {
    is_prefix(t, k) && m.contains_key(origin_of(s, t, k))
}

/// The tree after `s`, with everything below it, is copied into `to`.
pub open spec fn copy_one(m: Map<PathView, Node>, s: PathView, to: PathView) -> Map<
    PathView,
    Node,
> {
    let t = target_of(s, to);
    Map::new(
        |k: PathView| m.contains_key(k) || is_copy(m, s, t, k),
        |k: PathView|
            if is_copy(m, s, t, k) {
                m[origin_of(s, t, k)]
            } else {
                m[k]
            },
    )
}

/// Why copying `s` into `to` cannot start, if it cannot.
pub open spec fn copy_check(m: Map<PathView, Node>, s: PathView, to: PathView) -> Option<FsError> {
    let t = target_of(s, to);
    if s.len() == 0 {
        Some(FsError::InvalidInput)
    } else if !m.contains_key(s) {
        Some(FsError::NotFound)
    } else if to.len() > 0 && !m.contains_key(to) {
        Some(FsError::NotFound)
    } else if to.len() > 0 && m[to] is File {
        Some(FsError::InvalidInput)
    } else if m[s] is File && m.contains_key(t) && m[t] is Dir {
        Some(FsError::IoFailure)
    } else if m[s] is Dir && m.contains_key(t) {
        Some(FsError::AlreadyExists)
    } else {
        None
    }
}

/// The outcome of copying each source in turn into `to`.
pub open spec fn copy_all(m: Map<PathView, Node>, ss: Seq<PathView>, to: PathView) -> Result<
    Map<PathView, Node>,
    FsError,
>
    decreases ss.len(),
{
    if ss.len() == 0 {
        Ok(m)
    } else {
        match copy_all(m, ss.drop_last(), to) {
            Err(e) => Err(e),
            Ok(before) => match copy_check(before, ss.last(), to) {
                Some(e) => Err(e),
                None => Ok(copy_one(before, ss.last(), to)),
            },
        }
    }
}

pub proof fn lemma_prefix_split(a: PathView, k: PathView)
    requires
        is_prefix(a, k),
    ensures
        k == a + k.skip(a.len() as int),
{
    assert(k =~= k.take(a.len() as int) + k.skip(a.len() as int));
}

pub proof fn lemma_prefix_of_sum(a: PathView, b: PathView)
    ensures
        is_prefix(a, a + b),
        (a + b).skip(a.len() as int) == b,
{
    assert((a + b).take(a.len() as int) =~= a);
    assert((a + b).skip(a.len() as int) =~= b);
}

/// Every ancestor (one level deep or more) of a path of a closed tree is a
/// directory of the tree.
pub proof fn lemma_ancestor(m: Map<PathView, Node>, a: PathView, q: PathView)
    requires
        closed(m),
        m.contains_key(q),
        is_prefix(a, q),
        1 <= a.len() < q.len(),
    ensures
        m.contains_key(a),
        m[a] is Dir,
    decreases q.len() - a.len(),
{
    let p = q.drop_last();
    assert(m.contains_key(p) && m[p] is Dir);
    if a.len() == p.len() {
        assert(a =~= p);
    } else {
        assert(p.take(a.len() as int) =~= q.take(a.len() as int));
        lemma_ancestor(m, a, p);
    }
}

pub proof fn lemma_copy_closed(m: Map<PathView, Node>, s: PathView, to: PathView)
    requires
        closed(m),
        copy_check(m, s, to) is None,
    ensures
        closed(copy_one(m, s, to)),
{
    let t = target_of(s, to);
    let r = copy_one(m, s, to);
    assert(is_prefix(to, t)) by {
        assert(t.take(to.len() as int) =~= to);
    }
    assert forall|q: PathView| #[trigger] r.contains_key(q) implies q.len() > 0 && (q.len() > 1
        ==> r.contains_key(q.drop_last()) && r[q.drop_last()] is Dir) by {
        if is_copy(m, s, t, q) {
            let u = origin_of(s, t, q);
            if q.len() > 1 {
                let p = q.drop_last();
                if q.len() == t.len() {
                    assert(q =~= t);
                    assert(p =~= to);
                } else {
                    assert(is_prefix(t, p)) by {
                        assert(p.take(t.len() as int) =~= q.take(t.len() as int));
                    }
                    assert(origin_of(s, t, p) =~= u.drop_last());
                    assert(m.contains_key(u.drop_last()));
                }
            }
        } else {
            assert(m.contains_key(q));
            if q.len() > 1 {
                let p = q.drop_last();
                if is_copy(m, s, t, p) {
                    crate::ops::lemma_prefix_of_parent(t, q);
                    lemma_ancestor(m, t, q);
                    if q.len() == t.len() {
                        assert(q.take(t.len() as int) =~= q);
                    }
                }
            }
        }
    }
}

/// A failure at one source is the failure of the whole list.
proof fn lemma_copy_all_stops(m: Map<PathView, Node>, ss: Seq<PathView>, to: PathView, i: int)
    requires
        0 <= i < ss.len(),
        copy_all(m, ss.take(i + 1), to) is Err,
    ensures
        copy_all(m, ss, to) == copy_all(m, ss.take(i + 1), to),
    decreases ss.len() - i,
{
    if i + 1 < ss.len() {
        assert(ss.take(i + 2).drop_last() =~= ss.take(i + 1));
        lemma_copy_all_stops(m, ss, to, i + 1);
    } else {
        assert(ss.take(i + 1) =~= ss);
    }
}

/// While `s` is copied, a path below `s` still holds its own node when its
/// turn comes.
proof fn lemma_origin_untouched(
    m: Map<PathView, Node>,
    s: PathView,
    to: PathView,
    done: Set<PathView>,
    q: PathView,
)
    requires
        closed(m),
        copy_check(m, s, to) is None,
        m.contains_key(q),
        is_prefix(s, q),
        !done.contains(q),
    ensures
        !(is_copy(m, s, target_of(s, to), q) && done.contains(origin_of(s, target_of(s, to), q))),
{
    let t = target_of(s, to);
    if is_copy(m, s, t, q) && done.contains(origin_of(s, t, q)) {
        if q.len() > t.len() {
            lemma_ancestor(m, t, q);
        } else {
            assert(q =~= t) by {
                assert(q.take(t.len() as int) =~= q);
            }
            if q.len() > s.len() {
                lemma_ancestor(m, s, q);
            } else {
                assert(q =~= s) by {
                    assert(q.take(s.len() as int) =~= q);
                }
                assert(q.skip(t.len() as int) =~= Seq::<Seq<char>>::empty());
                assert(origin_of(s, t, q) =~= q);
            }
        }
    }
}

impl FileTree {
    /// A copy of the entries, in order.
    pub fn snapshot(&self) -> (r: Vec<Entry>)
        ensures
            r@.len() == self.entries@.len(),
            forall|i: int|
                0 <= i < r@.len() ==> #[trigger] r@[i].path@ == self.entries@[i].path@ && r@[i].node
                    == self.entries@[i].node,
            map_of(r@) == self@,
            distinct(self.entries@) ==> distinct(r@),
    {
        let mut r: Vec<Entry> = Vec::new();
        let mut i: usize = 0;
        while i < self.entries.len()
            invariant
                i <= self.entries@.len(),
                r@.len() == i,
                forall|j: int|
                    0 <= j < i ==> #[trigger] r@[j].path@ == self.entries@[j].path@ && r@[j].node
                        == self.entries@[j].node,
                map_of(r@) == map_of(self.entries@.take(i as int)),
            decreases self.entries.len() - i,
        {
            let ghost prev = r@;
            r.push(self.entries[i].duplicate());
            proof {
                assert(r@.drop_last() =~= prev);
                assert(self.entries@.take(i + 1).drop_last() =~= self.entries@.take(i as int));
            }
            i = i + 1;
        }
        proof {
            assert(self.entries@.take(i as int) =~= self.entries@);
        }
        r
    }

    /// Copies `s`, with everything below it, into the directory `to`.
    pub fn copy_into(&mut self, s: &FsPath, to: &FsPath) -> (r: Result<(), FsError>)
        requires
            old(self).wf(),
        ensures
            final(self).wf(),
            replays_to(old(self)@, old(self).journal@, final(self)@, final(self).journal@),
            r is Ok <==> copy_check(old(self)@, s@, to@) is None,
            r is Ok ==> final(self)@ == copy_one(old(self)@, s@, to@),
            r matches Err(e) ==> copy_check(old(self)@, s@, to@) == Some(e) && final(self)@ == old(
                self,
            )@,
    {
        let ghost m = self@;
        let ghost j0 = self.journal@;
        proof {
            lemma_replays_refl(m, j0);
        }
        if s.len() == 0 {
            return Err(FsError::InvalidInput);
        }
        let sn = match self.get(s) {
            None => {
                return Err(FsError::NotFound);
            },
            Some(n) => n,
        };
        if to.len() > 0 {
            match self.get(to) {
                None => {
                    return Err(FsError::NotFound);
                },
                Some(Node::File { .. }) => {
                    return Err(FsError::InvalidInput);
                },
                Some(Node::Dir { .. }) => {},
            }
        }
        let t = to.join(s.file_name());
        match (sn, self.get(&t)) {
            (Node::File { .. }, Some(Node::Dir { .. })) => {
                return Err(FsError::IoFailure);
            },
            (Node::Dir { .. }, Some(_)) => {
                return Err(FsError::AlreadyExists);
            },
            _ => {},
        }
        let snap = self.snapshot();
        let ghost tv = t@;
        let ghost mut done: Set<PathView> = Set::empty();
        let mut i: usize = 0;
        proof {
            lemma_map_of(snap@);
            assert(self@ =~= Map::new(
                |k: PathView| m.contains_key(k) || (is_copy(m, s@, tv, k) && done.contains(origin_of(s@, tv, k))),
                |k: PathView| if is_copy(m, s@, tv, k) && done.contains(origin_of(s@, tv, k)) {
                    m[origin_of(s@, tv, k)]
                } else {
                    m[k]
                },
            ));
        }
        while i < snap.len()
            invariant
                distinct(self.entries@),
                distinct(snap@),
                map_of(snap@) == m,
                tv == t@,
                tv == target_of(s@, to@),
                i <= snap@.len(),
                closed(m),
                copy_check(m, s@, to@) is None,
                replays_to(m, j0, self@, self.journal@),
                forall|q: PathView| #[trigger] done.contains(q) <==> exists|j: int|
                    0 <= j < i && snap@[j].path@ == q,
                self@ == Map::new(
                    |k: PathView| m.contains_key(k) || (is_copy(m, s@, tv, k) && done.contains(origin_of(s@, tv, k))),
                    |k: PathView| if is_copy(m, s@, tv, k) && done.contains(origin_of(s@, tv, k)) {
                        m[origin_of(s@, tv, k)]
                    } else {
                        m[k]
                    },
                ),
            decreases snap.len() - i,
        {
            let q = &snap[i].path;
            let ghost qv = q@;
            let ghost before = self@;
            let ghost done2 = done.insert(qv);
            let ghost after = Map::new(
                |k: PathView| m.contains_key(k) || (is_copy(m, s@, tv, k) && done2.contains(origin_of(s@, tv, k))),
                |k: PathView| if is_copy(m, s@, tv, k) && done2.contains(origin_of(s@, tv, k)) {
                    m[origin_of(s@, tv, k)]
                } else {
                    m[k]
                },
            );
            proof {
                lemma_map_of(snap@);
                assert(m.contains_key(qv));
                assert(m[qv] == snap@[i as int].node);
            }
            if q.starts_with(s) {
                let k = q.rebase(s, &t);
                let ghost jb = self.journal@;
                match snap[i].node {
                    Node::Dir { .. } => self.journal.push(Op::CreateDir(k.duplicate())),
                    Node::File { .. } => self.journal.push(Op::CopyFile(q.duplicate(), k.duplicate())),
                }
                let ghost kv = k@;
                self.put(k, snap[i].node);
                proof {
                    assert(!done.contains(qv)) by {
                        if done.contains(qv) {
                            let a = choose|a: int| 0 <= a < i && snap@[a].path@ == qv;
                            assert(snap@[a].path@ != snap@[i as int].path@);
                        }
                    }
                    lemma_origin_untouched(m, s@, to@, done, qv);
                    assert(before.contains_key(qv) && before[qv] == m[qv]);
                    let op = self.journal@.last();
                    assert(self.journal@ == jb.push(op));
                    let x = apply(before, op);
                    assert(same_shape(x, self@)) by {
                        assert(x.dom() =~= self@.dom());
                    }
                    lemma_replays_step(m, j0, before, jb, op, self@);
                    lemma_prefix_of_sum(tv, qv.skip(s@.len() as int));
                    lemma_prefix_split(s@, qv);
                    assert(origin_of(s@, tv, kv) == qv);
                    assert forall|x: PathView| #[trigger] after.contains_key(x) == before.insert(kv, m[qv]).contains_key(x)
                        && (after.contains_key(x) ==> after[x] == before.insert(kv, m[qv])[x]) by {
                        if x != kv && is_copy(m, s@, tv, x) && origin_of(s@, tv, x) == qv {
                            lemma_prefix_split(tv, x);
                            assert(x.skip(tv.len() as int) =~= qv.skip(s@.len() as int)) by {
                                lemma_prefix_of_sum(s@, x.skip(tv.len() as int));
                            }
                        }
                    }
                    assert(self@ == before.insert(kv, m[qv]));
                    assert(after =~= before.insert(kv, m[qv]));
                }
            } else {
                proof {
                    assert forall|x: PathView|
                        #![trigger after.contains_key(x)]
                        #![trigger before.contains_key(x)]
                        after.contains_key(x) == before.contains_key(x)
                        && (after.contains_key(x) ==> after[x] == before[x]) by {
                        if origin_of(s@, tv, x) == qv {
                            lemma_prefix_of_sum(s@, x.skip(tv.len() as int));
                        }
                    }
                    assert(self@ =~= after);
                }
            }
            proof {
                done = done2;
                assert forall|x: PathView| #[trigger] done.contains(x) <==> exists|j: int|
                    0 <= j < i + 1 && snap@[j].path@ == x by {
                    if x == qv {
                        assert(snap@[i as int].path@ == x);
                    }
                }
            }
            i = i + 1;
        }
        proof {
            lemma_map_of(snap@);
            assert forall|x: PathView| #[trigger] self@.contains_key(x) == copy_one(m, s@, to@).contains_key(x)
                && (self@.contains_key(x) ==> self@[x] == copy_one(m, s@, to@)[x]) by {
                let o = origin_of(s@, tv, x);
                if m.contains_key(o) {
                    let j = choose|j: int| 0 <= j < snap@.len() && snap@[j].path@ == o;
                    assert(done.contains(snap@[j].path@));
                }
            }
            assert(self@ =~= copy_one(m, s@, to@));
            lemma_copy_closed(m, s@, to@);
        }
        Ok(())
    }
}

/// The outcome of moving: everything is copied first, and only then are the
/// sources removed.
pub open spec fn move_all(m: Map<PathView, Node>, ss: Seq<PathView>, to: PathView) -> Result<
    Map<PathView, Node>,
    FsError,
> {
    match copy_all(m, ss, to) {
        Err(e) => Err(e),
        Ok(copied) => remove_all(copied, ss),
    }
}

/// Copies each path of `from` in turn, a directory with everything below it,
/// into the directory `to`; stops at the first failure.
pub fn cp(fs: &mut FileTree, from: &Vec<FsPath>, to: &FsPath) -> (r: Result<(), FsError>)
    requires
        old(fs).wf(),
    ensures
        final(fs).wf(),
        replays_to(old(fs)@, old(fs).journal@, final(fs)@, final(fs).journal@),
        from@.len() == 0 ==> r == Err::<(), FsError>(FsError::InvalidInput) && final(fs)@ == old(
            fs,
        )@ && final(fs).journal@ == old(fs).journal@,
        from@.len() > 0 ==> (r is Ok <==> copy_all(old(fs)@, views(from@), to@) is Ok),
        from@.len() > 0 && r is Ok ==> final(fs)@ == copy_all(old(fs)@, views(from@), to@)->Ok_0,
        from@.len() > 0 ==> (r matches Err(e) ==> copy_all(old(fs)@, views(from@), to@) == Err::<
            Map<PathView, Node>,
            FsError,
        >(e)),
{
    if from.len() == 0 {
        proof {
            lemma_replays_refl(fs@, fs.journal@);
        }
        return Err(FsError::InvalidInput);
    }
    let ghost m = fs@;
    let ghost j0 = fs.journal@;
    proof {
        lemma_replays_refl(m, j0);
    }
    let mut i: usize = 0;
    while i < from.len()
        invariant
            fs.wf(),
            m == old(fs)@,
            j0 == old(fs).journal@,
            replays_to(m, j0, fs@, fs.journal@),
            i <= from@.len(),
            copy_all(m, views(from@).take(i as int), to@) == Ok::<Map<PathView, Node>, FsError>(
                fs@,
            ),
        decreases from.len() - i,
    {
        let p = &from[i];
        proof {
            assert(views(from@).take(i + 1).drop_last() =~= views(from@).take(i as int));
            assert(views(from@).take(i + 1).last() == p@);
        }
        let ghost before = fs@;
        let ghost jb = fs.journal@;
        let done = fs.copy_into(p, to);
        proof {
            lemma_replays_trans(m, j0, before, jb, fs@, fs.journal@);
        }
        if let Err(e) = done {
            proof {
                lemma_copy_all_stops(m, views(from@), to@, i as int);
            }
            return Err(e);
        }
        i = i + 1;
    }
    proof {
        assert(views(from@).take(from@.len() as int) =~= views(from@));
    }
    Ok(())
}

/// Moves each path of `from` into the directory `to`: all are copied first,
/// and only when every copy succeeded are the originals removed.
pub fn mv(fs: &mut FileTree, from: &Vec<FsPath>, to: &FsPath) -> (r: Result<(), FsError>)
    requires
        old(fs).wf(),
    ensures
        final(fs).wf(),
        replays_to(old(fs)@, old(fs).journal@, final(fs)@, final(fs).journal@),
        from@.len() == 0 ==> r == Err::<(), FsError>(FsError::InvalidInput) && final(fs)@ == old(
            fs,
        )@,
        from@.len() > 0 ==> (r is Ok <==> move_all(old(fs)@, views(from@), to@) is Ok),
        from@.len() > 0 && r is Ok ==> final(fs)@ == move_all(old(fs)@, views(from@), to@)->Ok_0,
        from@.len() > 0 ==> (r matches Err(e) ==> move_all(old(fs)@, views(from@), to@) == Err::<
            Map<PathView, Node>,
            FsError,
        >(e)),
{
    if from.len() == 0 {
        proof {
            lemma_replays_refl(fs@, fs.journal@);
        }
        return Err(FsError::InvalidInput);
    }
    let ghost m = fs@;
    let ghost j0 = fs.journal@;
    let copied = cp(fs, from, to);
    if let Err(e) = copied {
        return Err(e);
    }
    let ghost c = fs@;
    let ghost jc = fs.journal@;
    let removed = rm(fs, from);
    proof {
        lemma_replays_trans(m, j0, c, jc, fs@, fs.journal@);
    }
    removed
}

} // verus!
