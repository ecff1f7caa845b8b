use vstd::prelude::*;
use crate::path::{is_prefix, FsPath, PathView};
use crate::tree::{
    apply, children, closed, distinct, is_dir_in, lemma_replays_refl, lemma_replays_step,
    lemma_replays_trans, remove_under, replays_to, FileTree, FsError, Node, Op,
};
use crate::utils::{create, existing_depth, make_all, make_dir, views, with_dirs, CreateType};

verus! {

/// `d` is the root, which always exists, or a directory of the tree.
pub open spec fn dir_exists(m: Map<PathView, Node>, d: PathView) -> bool {
    d.len() == 0 || is_dir_in(m, d)
}

/// `v` holds the paths of `s`, and nothing else.
pub open spec fn lists(s: Set<PathView>, v: Seq<PathView>) -> bool {
    &&& forall|i: int| 0 <= i < v.len() ==> s.contains(#[trigger] v[i])
    &&& forall|k: PathView| #[trigger] s.contains(k) ==> exists|i: int| 0 <= i < v.len() && v[i] == k
}

/// The outcome of removing each path in turn, with all that lies below it.
pub open spec fn remove_all(m: Map<PathView, Node>, ps: Seq<PathView>) -> Result<
    Map<PathView, Node>,
    FsError,
>
    decreases ps.len(),
{
    if ps.len() == 0 {
        Ok(m)
    } else {
        match remove_all(m, ps.drop_last()) {
            Err(e) => Err(e),
            Ok(before) => if before.contains_key(ps.last()) {
                Ok(remove_under(before, ps.last()))
            } else {
                Err(FsError::NotFound)
            },
        }
    }
}

/// The outcome of emptying each path in turn: it is removed with all below
/// it and made again as an empty directory.
pub open spec fn clean_all(m: Map<PathView, Node>, ps: Seq<PathView>) -> Result<
    Map<PathView, Node>,
    FsError,
>
    decreases ps.len(),
{
    if ps.len() == 0 {
        Ok(m)
    } else {
        match clean_all(m, ps.drop_last()) {
            Err(e) => Err(e),
            Ok(before) => if before.contains_key(ps.last()) {
                Ok(remove_under(before, ps.last()).insert(ps.last(), Node::Dir { size: 0 }))
            } else {
                Err(FsError::NotFound)
            },
        }
    }
}

pub proof fn lemma_prefix_of_parent(p: PathView, q: PathView)
    requires
        q.len() > 0,
        is_prefix(p, q.drop_last()),
    ensures
        is_prefix(p, q),
{
    assert(q.take(p.len() as int) =~= q.drop_last().take(p.len() as int));
}

pub proof fn lemma_remove_closed(m: Map<PathView, Node>, p: PathView)
    requires
        closed(m),
    ensures
        closed(remove_under(m, p)),
{
    let r = remove_under(m, p);
    assert forall|q: PathView| #[trigger] r.contains_key(q) implies q.len() > 0 && (q.len() > 1
        ==> r.contains_key(q.drop_last()) && r[q.drop_last()] is Dir) by {
        assert(m.contains_key(q));
        if q.len() > 1 && is_prefix(p, q.drop_last()) {
            lemma_prefix_of_parent(p, q);
        }
    }
}

proof fn lemma_remake_dir(m: Map<PathView, Node>, p: PathView)
    requires
        closed(m),
        m.contains_key(p),
    ensures
        make_dir(remove_under(m, p), p) == Ok::<Map<PathView, Node>, FsError>(
            remove_under(m, p).insert(p, Node::Dir { size: 0 }),
        ),
{
    let r = remove_under(m, p);
    let n = p.len() as int;
    assert(r.contains_key(p.take(n)) == false) by {
        assert(p.take(n) =~= p);
        assert(is_prefix(p, p));
    }
    assert(!r.contains_key(p)) by {
        assert(p.take(n) =~= p);
    }
    if n > 1 {
        assert(p.take(n - 1) =~= p.drop_last());
        assert(!is_prefix(p, p.drop_last()));
        assert(r.contains_key(p.take(n - 1)));
    }
    let k = existing_depth(r, p, n - 1);
    assert(k == n - 1);
    assert(with_dirs(r, p, k, n) =~= r.insert(p, Node::Dir { size: 0 })) by {
        assert(p.take(n) =~= p);
        assert forall|q: PathView| with_dirs(r, p, k, n).contains_key(q) implies #[trigger] r.insert(
            p,
            Node::Dir { size: 0 },
        ).contains_key(q) by {
            if !r.contains_key(q) {
                assert(q.len() == n);
                assert(q =~= p);
            }
        }
    }
}

/// The paths one level below the directory `dir`, in the tree's order.
pub fn ls(fs: &FileTree, dir: &FsPath) -> (r: Result<Vec<FsPath>, FsError>)
    requires
        fs.wf(),
    ensures
        r is Ok <==> dir_exists(fs@, dir@),
        r is Err && fs@.contains_key(dir@) ==> r == Err::<Vec<FsPath>, FsError>(
            FsError::InvalidInput,
        ),
        r is Err && !fs@.contains_key(dir@) ==> r == Err::<Vec<FsPath>, FsError>(
            FsError::NotFound,
        ),
        r matches Ok(v) ==> lists(children(fs@, dir@), views(v@)),
{
    if dir.len() > 0 {
        match fs.get(dir) {
            None => {
                return Err(FsError::NotFound);
            },
            Some(Node::File { .. }) => {
                return Err(FsError::InvalidInput);
            },
            Some(Node::Dir { .. }) => {},
        }
    }
    proof {
        crate::tree::lemma_map_of(fs.entries@);
    }
    let mut v: Vec<FsPath> = Vec::new();
    let mut i: usize = 0;
    while i < fs.entries.len()
        invariant
            i <= fs.entries@.len(),
            forall|k: PathView| #[trigger]
                fs@.contains_key(k) <==> exists|j: int|
                    0 <= j < fs.entries@.len() && fs.entries@[j].path@ == k,
            forall|a: int| 0 <= a < v@.len() ==> children(fs@, dir@).contains(#[trigger] v@[a]@),
            forall|j: int|
                0 <= j < i && children(fs@, dir@).contains(#[trigger] fs.entries@[j].path@)
                    ==> exists|a: int| 0 <= a < v@.len() && v@[a]@ == fs.entries@[j].path@,
        decreases fs.entries.len() - i,
    {
        let p = &fs.entries[i].path;
        if p.len() > dir.len() && p.len() - dir.len() == 1 && p.starts_with(dir) {
            proof {
                assert(fs@.contains_key(p@));
            }
            let ghost prev = v@;
            v.push(p.duplicate());
            proof {
                assert(v@[v@.len() - 1]@ == p@);
                assert(forall|a: int| 0 <= a < prev.len() ==> prev[a] == v@[a]);
                assert forall|j: int|
                    0 <= j < i + 1 && children(fs@, dir@).contains(#[trigger] fs.entries@[j].path@)
                        implies exists|a: int| 0 <= a < v@.len() && v@[a]@ == fs.entries@[j].path@ by {
                    if j < i {
                        let a = choose|a: int| 0 <= a < prev.len() && prev[a]@ == fs.entries@[j].path@;
                        assert(v@[a]@ == fs.entries@[j].path@);
                    } else {
                        assert(v@[v@.len() - 1]@ == fs.entries@[j].path@);
                    }
                }
            }
        }
        i = i + 1;
    }
    proof {
        assert forall|k: PathView| #[trigger] children(fs@, dir@).contains(k) implies exists|i: int|
            0 <= i < v@.len() && v@[i]@ == k by {
            let j = choose|j: int| 0 <= j < fs.entries@.len() && fs.entries@[j].path@ == k;
            assert(children(fs@, dir@).contains(fs.entries@[j].path@));
        }
        let w = views(v@);
        assert(forall|i: int| 0 <= i < v@.len() ==> w[i] == v@[i]@);
        assert forall|i: int| 0 <= i < w.len() implies children(fs@, dir@).contains(#[trigger] w[i]) by {
            assert(w[i] == v@[i]@);
        }
        assert forall|k: PathView| #[trigger] children(fs@, dir@).contains(k) implies exists|i: int|
            0 <= i < w.len() && w[i] == k by {
            let a = choose|a: int| 0 <= a < v@.len() && v@[a]@ == k;
            assert(w[a] == k);
        }
    }
    Ok(v)
}

/// Removes each path in turn, a directory with everything below it; stops
/// at the first path that is not there.
pub fn rm(fs: &mut FileTree, from: &Vec<FsPath>) -> (r: Result<(), FsError>)
    requires
        old(fs).wf(),
    ensures
        final(fs).wf(),
        replays_to(old(fs)@, old(fs).journal@, final(fs)@, final(fs).journal@),
        from@.len() == 0 ==> r == Err::<(), FsError>(FsError::InvalidInput) && final(fs)@ == old(
            fs,
        )@,
        from@.len() > 0 ==> (r is Ok <==> remove_all(old(fs)@, views(from@)) is Ok),
        from@.len() > 0 && r is Ok ==> final(fs)@ == remove_all(old(fs)@, views(from@))->Ok_0,
        from@.len() > 0 ==> (r matches Err(e) ==> remove_all(old(fs)@, views(from@)) == Err::<
            Map<PathView, Node>,
            FsError,
        >(e)),
{
    if from.len() == 0 {
        proof {
            lemma_replays_refl(fs@, fs.journal@);
        }
        return Err(FsError::InvalidInput);
    }
    let ghost m = fs@;
    let ghost j0 = fs.journal@;
    proof {
        lemma_replays_refl(m, j0);
    }
    let mut i: usize = 0;
    while i < from.len()
        invariant
            fs.wf(),
            m == old(fs)@,
            j0 == old(fs).journal@,
            replays_to(m, j0, fs@, fs.journal@),
            i <= from@.len(),
            remove_all(m, views(from@).take(i as int)) == Ok::<Map<PathView, Node>, FsError>(fs@),
        decreases from.len() - i,
    {
        let p = &from[i];
        proof {
            assert(views(from@).take(i + 1).drop_last() =~= views(from@).take(i as int));
            assert(views(from@).take(i + 1).last() == p@);
        }
        let ghost jb = fs.journal@;
        match fs.get(p) {
            None => {
                proof {
                    let ps = views(from@).take(i + 1);
                    assert(remove_all(m, ps) == Err::<Map<PathView, Node>, FsError>(FsError::NotFound));
                    lemma_remove_all_stops(m, views(from@), i as int);
                }
                return Err(FsError::NotFound);
            },
            Some(Node::File { .. }) => fs.journal.push(Op::RemoveFile(p.duplicate())),
            Some(Node::Dir { .. }) => fs.journal.push(Op::RemoveDirAll(p.duplicate())),
        }
        let ghost before = fs@;
        fs.drop_under(p);
        proof {
            assert(fs.journal@ == jb.push(fs.journal@.last()));
            assert(apply(before, fs.journal@.last()) == fs@);
            lemma_replays_step(m, j0, before, jb, fs.journal@.last(), fs@);
            lemma_remove_closed(before, p@);
            let ps = views(from@).take(i + 1);
            assert(remove_all(m, ps) == Ok::<Map<PathView, Node>, FsError>(fs@));
        }
        i = i + 1;
    }
    proof {
        assert(views(from@).take(from@.len() as int) =~= views(from@));
    }
    Ok(())
}

/// A failure at one path is the failure of the whole list.
proof fn lemma_remove_all_stops(m: Map<PathView, Node>, ps: Seq<PathView>, i: int)
    requires
        0 <= i < ps.len(),
        remove_all(m, ps.take(i + 1)) is Err,
    ensures
        remove_all(m, ps) == remove_all(m, ps.take(i + 1)),
    decreases ps.len() - i,
{
    if i + 1 < ps.len() {
        assert(ps.take(i + 2).drop_last() =~= ps.take(i + 1));
        lemma_remove_all_stops(m, ps, i + 1);
    } else {
        assert(ps.take(i + 1) =~= ps);
    }
}

/// A failure at one path is the failure of the whole list.
proof fn lemma_clean_all_stops(m: Map<PathView, Node>, ps: Seq<PathView>, i: int)
    requires
        0 <= i < ps.len(),
        clean_all(m, ps.take(i + 1)) is Err,
    ensures
        clean_all(m, ps) == clean_all(m, ps.take(i + 1)),
    decreases ps.len() - i,
{
    if i + 1 < ps.len() {
        assert(ps.take(i + 2).drop_last() =~= ps.take(i + 1));
        lemma_clean_all_stops(m, ps, i + 1);
    } else {
        assert(ps.take(i + 1) =~= ps);
    }
}

/// Creates an empty file at each path, emptying a file already there. One
/// path fails as it fails alone; of several, those that fail are passed over.
pub fn touch(fs: &mut FileTree, file_paths: &Vec<FsPath>) -> (r: Result<(), FsError>)
    requires
        old(fs).wf(),
    ensures
        final(fs).wf(),
        replays_to(old(fs)@, old(fs).journal@, final(fs)@, final(fs).journal@),
        file_paths@.len() == 0 ==> r == Err::<(), FsError>(FsError::InvalidInput),
        file_paths@.len() > 0 ==> (r is Ok <==> make_all(
            old(fs)@,
            views(file_paths@),
            CreateType::File,
        ) is Ok),
        r is Ok ==> final(fs)@ == make_all(old(fs)@, views(file_paths@), CreateType::File)->Ok_0,
        r is Err ==> final(fs)@ == old(fs)@,
        file_paths@.len() > 0 ==> (r matches Err(e) ==> make_all(
            old(fs)@,
            views(file_paths@),
            CreateType::File,
        ) == Err::<Map<PathView, Node>, FsError>(e)),
{
    if file_paths.len() == 0 {
        proof {
            lemma_replays_refl(fs@, fs.journal@);
        }
        return Err(FsError::InvalidInput);
    }
    create(fs, file_paths, &CreateType::File)
}

/// Creates a directory at each path, with every missing ancestor. One path
/// fails as it fails alone; of several, those that fail are passed over.
pub fn mkdir(fs: &mut FileTree, dir_paths: &Vec<FsPath>) -> (r: Result<(), FsError>)
    requires
        old(fs).wf(),
    ensures
        final(fs).wf(),
        replays_to(old(fs)@, old(fs).journal@, final(fs)@, final(fs).journal@),
        dir_paths@.len() == 0 ==> r == Err::<(), FsError>(FsError::InvalidInput),
        dir_paths@.len() > 0 ==> (r is Ok <==> make_all(
            old(fs)@,
            views(dir_paths@),
            CreateType::Dir,
        ) is Ok),
        r is Ok ==> final(fs)@ == make_all(old(fs)@, views(dir_paths@), CreateType::Dir)->Ok_0,
        r is Err ==> final(fs)@ == old(fs)@,
        dir_paths@.len() > 0 ==> (r matches Err(e) ==> make_all(
            old(fs)@,
            views(dir_paths@),
            CreateType::Dir,
        ) == Err::<Map<PathView, Node>, FsError>(e)),
{
    if dir_paths.len() == 0 {
        proof {
            lemma_replays_refl(fs@, fs.journal@);
        }
        return Err(FsError::InvalidInput);
    }
    create(fs, dir_paths, &CreateType::Dir)
}

/// Empties each path in turn: it is removed with everything below it and
/// made again as an empty directory. Stops at the first path that is not there.
pub fn clean(fs: &mut FileTree, paths: &Vec<FsPath>) -> (r: Result<(), FsError>)
    requires
        old(fs).wf(),
    ensures
        final(fs).wf(),
        replays_to(old(fs)@, old(fs).journal@, final(fs)@, final(fs).journal@),
        paths@.len() == 0 ==> r == Err::<(), FsError>(FsError::InvalidInput) && final(fs)@ == old(
            fs,
        )@,
        paths@.len() > 0 ==> (r is Ok <==> clean_all(old(fs)@, views(paths@)) is Ok),
        paths@.len() > 0 && r is Ok ==> final(fs)@ == clean_all(old(fs)@, views(paths@))->Ok_0,
        paths@.len() > 0 ==> (r matches Err(e) ==> clean_all(old(fs)@, views(paths@)) == Err::<
            Map<PathView, Node>,
            FsError,
        >(e)),
{
    if paths.len() == 0 {
        proof {
            lemma_replays_refl(fs@, fs.journal@);
        }
        return Err(FsError::InvalidInput);
    }
    let ghost m = fs@;
    let ghost j0 = fs.journal@;
    proof {
        lemma_replays_refl(m, j0);
    }
    let mut i: usize = 0;
    while i < paths.len()
        invariant
            fs.wf(),
            m == old(fs)@,
            j0 == old(fs).journal@,
            replays_to(m, j0, fs@, fs.journal@),
            i <= paths@.len(),
            clean_all(m, views(paths@).take(i as int)) == Ok::<Map<PathView, Node>, FsError>(fs@),
        decreases paths.len() - i,
    {
        let p = &paths[i];
        proof {
            assert(views(paths@).take(i + 1).drop_last() =~= views(paths@).take(i as int));
            assert(views(paths@).take(i + 1).last() == p@);
        }
        let ghost jb = fs.journal@;
        match fs.get(p) {
            None => {
                proof {
                    let ps = views(paths@).take(i + 1);
                    assert(clean_all(m, ps) == Err::<Map<PathView, Node>, FsError>(FsError::NotFound));
                    lemma_clean_all_stops(m, views(paths@), i as int);
                }
                return Err(FsError::NotFound);
            },
            Some(Node::File { .. }) => fs.journal.push(Op::RemoveFile(p.duplicate())),
            Some(Node::Dir { .. }) => fs.journal.push(Op::RemoveDirAll(p.duplicate())),
        }
        let ghost before = fs@;
        fs.drop_under(p);
        proof {
            assert(fs.journal@ == jb.push(fs.journal@.last()));
            assert(apply(before, fs.journal@.last()) == fs@);
            lemma_replays_step(m, j0, before, jb, fs.journal@.last(), fs@);
            lemma_remove_closed(before, p@);
            lemma_remake_dir(before, p@);
        }
        let ghost removed = fs@;
        let ghost jr = fs.journal@;
        let made = fs.make_dir(p);
        proof {
            lemma_replays_trans(m, j0, removed, jr, fs@, fs.journal@);
        }
        if made.is_err() {
            return made;
        }
        proof {
            let ps = views(paths@).take(i + 1);
            assert(clean_all(m, ps) == Ok::<Map<PathView, Node>, FsError>(fs@));
        }
        i = i + 1;
    }
    proof {
        assert(views(paths@).take(paths@.len() as int) =~= views(paths@));
    }
    Ok(())
}

} // verus!
