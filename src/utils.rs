use vstd::prelude::*;
use crate::path::{FsPath, PathView};
use crate::tree::{
    apply, closed, distinct, lemma_replays_refl, lemma_replays_step, lemma_replays_trans, replays_to,
    same_shape, FileTree, FsError, Node, Op, EMPTY_CONTENT,
};

verus! {

/// What `create` makes at each path.
#[derive(Debug, Clone, Copy, PartialEq, Eq, Structural)]
pub enum CreateType {
    Dir,
    File,
}

/// The length of the deepest ancestor of `p`, among its first `j` levels,
/// that the tree holds; 0 when there is none.
pub open spec fn existing_depth(m: Map<PathView, Node>, p: PathView, j: int) -> int
    decreases j,
{
    if j <= 0 {
        0
    } else if m.contains_key(p.take(j)) {
        j
    } else {
        existing_depth(m, p, j - 1)
    }
}

/// The tree with every ancestor of `p` deeper than `k` levels, up to `upto`
/// levels, added as an empty directory where nothing stood.
pub open spec fn with_dirs(m: Map<PathView, Node>, p: PathView, k: int, upto: int) -> Map<
    PathView,
    Node,
> {
    Map::new(
        |q: PathView| m.contains_key(q) || (k < q.len() <= upto && q == p.take(q.len() as int)),
        |q: PathView|
            if m.contains_key(q) {
                m[q]
            } else {
                Node::Dir { size: 0 }
            },
    )
}

/// The outcome of creating the directory `p` and its missing ancestors.
pub open spec fn make_dir(m: Map<PathView, Node>, p: PathView) -> Result<
    Map<PathView, Node>,
    FsError,
> {
    let k = existing_depth(m, p, p.len() - 1);
    if p.len() == 0 {
        Err(FsError::InvalidInput)
    } else if m.contains_key(p) {
        Err(FsError::AlreadyExists)
    } else if k > 0 && m[p.take(k)] is File {
        Err(FsError::IoFailure)
    } else {
        Ok(with_dirs(m, p, k, p.len() as int))
    }
}

/// The outcome of creating the empty file `p`; an existing file is emptied.
pub open spec fn make_file(m: Map<PathView, Node>, p: PathView) -> Result<
    Map<PathView, Node>,
    FsError,
> {
    if p.len() == 0 {
        Err(FsError::InvalidInput)
    } else if p.len() > 1 && !m.contains_key(p.drop_last()) {
        Err(FsError::NotFound)
    } else if p.len() > 1 && m[p.drop_last()] is File {
        Err(FsError::IoFailure)
    } else if m.contains_key(p) && m[p] is Dir {
        Err(FsError::IoFailure)
    } else {
        Ok(m.insert(p, Node::File { content: EMPTY_CONTENT, size: 0 }))
    }
}

pub open spec fn make_one(m: Map<PathView, Node>, p: PathView, t: CreateType) -> Result<
    Map<PathView, Node>,
    FsError,
> {
    match t {
        CreateType::Dir => make_dir(m, p),
        CreateType::File => make_file(m, p),
    }
}

/// Creating each path in turn, passing over those that fail.
pub open spec fn make_each(m: Map<PathView, Node>, ps: Seq<PathView>, t: CreateType) -> Map<
    PathView,
    Node,
>
    decreases ps.len(),
{
    if ps.len() == 0 {
        m
    } else {
        let before = make_each(m, ps.drop_last(), t);
        match make_one(before, ps.last(), t) {
            Ok(after) => after,
            Err(_) => before,
        }
    }
}

/// The outcome of `create`: one path fails as it fails alone; of several,
/// each that can be made is made and the call succeeds.
pub open spec fn make_all(m: Map<PathView, Node>, ps: Seq<PathView>, t: CreateType) -> Result<
    Map<PathView, Node>,
    FsError,
> {
    if ps.len() == 1 {
        make_one(m, ps[0], t)
    } else {
        Ok(make_each(m, ps, t))
    }
}

pub open spec fn views(ps: Seq<FsPath>) -> Seq<PathView> {
    ps.map_values(|p: FsPath| p@)
}

proof fn lemma_existing_depth(m: Map<PathView, Node>, p: PathView, j: int)
    requires
        j < p.len(),
    ensures
        0 <= existing_depth(m, p, j) <= if j < 0 {
            0
        } else {
            j
        },
        existing_depth(m, p, j) > 0 ==> m.contains_key(p.take(existing_depth(m, p, j))),
        forall|i: int|
            existing_depth(m, p, j) < i <= j ==> !#[trigger] m.contains_key(p.take(i)),
    decreases j,
{
    if j > 0 && !m.contains_key(p.take(j)) {
        lemma_existing_depth(m, p, j - 1);
    }
}

proof fn lemma_make_dir_closed(m: Map<PathView, Node>, p: PathView)
    requires
        closed(m),
        make_dir(m, p) is Ok,
    ensures
        closed(make_dir(m, p)->Ok_0),
{
    let k = existing_depth(m, p, p.len() - 1);
    lemma_existing_depth(m, p, p.len() - 1);
    let r = with_dirs(m, p, k, p.len() as int);
    assert(r == make_dir(m, p)->Ok_0);
    assert forall|q: PathView| #[trigger] r.contains_key(q) implies q.len() > 0 && (q.len() > 1
        ==> r.contains_key(q.drop_last()) && r[q.drop_last()] is Dir) by {
        if !m.contains_key(q) && q.len() > 1 {
            let d = q.drop_last();
            assert(d =~= p.take(d.len() as int));
            if d.len() == k {
                assert(m.contains_key(d));
            } else {
                assert(!m.contains_key(d));
            }
        }
    }
}

/// The directories above `path` that are missing, outermost first: walking
/// up from its parent, every ancestor until the first one the tree holds.
pub fn get_vec_of_nonexistent_dirs(fs: &FileTree, path: &FsPath) -> (r: Result<
    Vec<FsPath>,
    FsError,
>)
    requires
        fs.wf(),
    ensures
        r is Err <==> path@.len() == 0,
        r is Err ==> r == Err::<Vec<FsPath>, FsError>(FsError::InvalidInput),
        r matches Ok(v) ==> {
            let k = existing_depth(fs@, path@, path@.len() - 1);
            &&& v@.len() == path@.len() - 1 - k
            &&& forall|i: int| 0 <= i < v@.len() ==> #[trigger] v@[i]@ == path@.take(k + 1 + i)
        },
{
    let n = path.len();
    if n == 0 {
        return Err(FsError::InvalidInput);
    }
    let mut j: usize = n - 1;
    loop
        invariant
            fs.wf(),
            n == path@.len(),
            j < n,
            existing_depth(fs@, path@, n - 1) == existing_depth(fs@, path@, j as int),
        ensures
            j < n,
            existing_depth(fs@, path@, n - 1) == j,
        decreases j,
    {
        if j == 0 {
            break;
        }
        let ancestor = path.prefix(j);
        if fs.find(&ancestor).is_some() {
            break;
        }
        j = j - 1;
    }
    let mut missing: Vec<FsPath> = Vec::new();
    let mut t: usize = j + 1;
    while t < n
        invariant
            j < n == path@.len(),
            j + 1 <= t <= n,
            j == existing_depth(fs@, path@, n - 1),
            missing@.len() == t - j - 1,
            forall|i: int| 0 <= i < missing@.len() ==> #[trigger] missing@[i]@ == path@.take(j + 1 + i),
        decreases n - t,
    {
        missing.push(path.prefix(t));
        t = t + 1;
    }
    Ok(missing)
}

impl FileTree {
    /// Makes the directory `p`, and first each missing ancestor.
    pub fn make_dir(&mut self, p: &FsPath) -> (r: Result<(), FsError>)
        requires
            old(self).wf(),
        ensures
            final(self).wf(),
            replays_to(old(self)@, old(self).journal@, final(self)@, final(self).journal@),
            r is Ok <==> make_dir(old(self)@, p@) is Ok,
            r matches Ok(_) ==> final(self)@ == make_dir(old(self)@, p@)->Ok_0,
            r matches Err(e) ==> make_dir(old(self)@, p@) == Err::<Map<PathView, Node>, FsError>(
                e,
            ) && final(self)@ == old(self)@,
    {
        let ghost m = self@;
        let ghost j0 = self.journal@;
        let ghost k = existing_depth(m, p@, p@.len() - 1);
        proof {
            lemma_replays_refl(m, j0);
        }
        if p.len() == 0 {
            return Err(FsError::InvalidInput);
        }
        if self.find(p).is_some() {
            return Err(FsError::AlreadyExists);
        }
        let missing = match get_vec_of_nonexistent_dirs(self, p) {
            Ok(v) => v,
            Err(e) => {
                return Err(e);
            },
        };
        proof {
            lemma_existing_depth(m, p@, p@.len() - 1);
        }
        let depth = p.len() - 1 - missing.len();
        if depth > 0 {
            let top = p.prefix(depth);
            if let Some(Node::File { .. }) = self.get(&top) {
                return Err(FsError::IoFailure);
            }
        }
        let mut t: usize = 0;
        while t < missing.len()
            invariant
                distinct(self.entries@),
                depth == k,
                0 <= k < p@.len(),
                missing@.len() == p@.len() - 1 - k,
                forall|i: int| 0 <= i < missing@.len() ==> #[trigger] missing@[i]@ == p@.take(k + 1 + i),
                t <= missing@.len(),
                self@ == with_dirs(m, p@, k, k + t),
                !m.contains_key(p@),
                forall|i: int| k < i < p@.len() ==> !#[trigger] m.contains_key(p@.take(i)),
                replays_to(m, j0, self@, self.journal@),
            decreases missing.len() - t,
        {
            let ghost before = self@;
            let ghost jb = self.journal@;
            let d = missing[t].duplicate();
            self.put(d, Node::Dir { size: 0 });
            self.journal.push(Op::CreateDir(missing[t].duplicate()));
            proof {
                assert(self.journal@ == jb.push(self.journal@.last()));
                assert(apply(before, self.journal@.last()) == self@);
                lemma_replays_step(m, j0, before, jb, self.journal@.last(), self@);
                let q = p@.take(k + 1 + t);
                assert(self@ =~= with_dirs(m, p@, k, k + t + 1)) by {
                    assert forall|x: PathView| with_dirs(m, p@, k, k + t + 1).contains_key(x)
                        implies #[trigger] self@.contains_key(x) by {
                        if x.len() == k + t + 1 && x == p@.take(x.len() as int) && !m.contains_key(x) {
                            assert(x == q);
                        }
                    }
                }
            }
            t = t + 1;
        }
        let ghost before = self@;
        let ghost jb = self.journal@;
        self.put(p.duplicate(), Node::Dir { size: 0 });
        self.journal.push(Op::CreateDir(p.duplicate()));
        proof {
            assert(self.journal@ == jb.push(self.journal@.last()));
            assert(apply(before, self.journal@.last()) == self@);
            lemma_replays_step(m, j0, before, jb, self.journal@.last(), self@);
            assert(p@.take(p@.len() as int) =~= p@);
            assert(self@ =~= with_dirs(m, p@, k, p@.len() as int)) by {
                assert forall|x: PathView| with_dirs(m, p@, k, p@.len() as int).contains_key(x)
                    implies #[trigger] self@.contains_key(x) by {
                    if x.len() == p@.len() && x == p@.take(x.len() as int) {
                        assert(x == p@);
                    }
                }
            }
            lemma_make_dir_closed(m, p@);
        }
        Ok(())
    }

    /// Makes the empty file `p`, or empties the file that stands there.
    pub fn make_file(&mut self, p: &FsPath) -> (r: Result<(), FsError>)
        requires
            old(self).wf(),
        ensures
            final(self).wf(),
            replays_to(old(self)@, old(self).journal@, final(self)@, final(self).journal@),
            r is Ok <==> make_file(old(self)@, p@) is Ok,
            r matches Ok(_) ==> final(self)@ == make_file(old(self)@, p@)->Ok_0,
            r matches Err(e) ==> make_file(old(self)@, p@) == Err::<Map<PathView, Node>, FsError>(
                e,
            ) && final(self)@ == old(self)@,
    {
        let ghost m = self@;
        let ghost j0 = self.journal@;
        proof {
            lemma_replays_refl(m, j0);
        }
        if p.len() == 0 {
            return Err(FsError::InvalidInput);
        }
        if p.len() > 1 {
            match self.get(&p.parent()) {
                None => {
                    return Err(FsError::NotFound);
                },
                Some(Node::File { .. }) => {
                    return Err(FsError::IoFailure);
                },
                Some(Node::Dir { .. }) => {},
            }
        }
        if let Some(Node::Dir { .. }) = self.get(p) {
            return Err(FsError::IoFailure);
        }
        self.put(p.duplicate(), Node::File { content: EMPTY_CONTENT, size: 0 });
        self.journal.push(Op::CreateFile(p.duplicate()));
        proof {
            assert(self.journal@ == j0.push(self.journal@.last()));
            assert(apply(m, self.journal@.last()) == self@);
            lemma_replays_step(m, j0, m, j0, self.journal@.last(), self@);
            let key = p@;
            assert forall|k: PathView| #[trigger] self@.contains_key(k) implies k.len() > 0 && (
            k.len() > 1 ==> self@.contains_key(k.drop_last()) && self@[k.drop_last()] is Dir) by {
                if k != key {
                    assert(m.contains_key(k));
                    if k.len() > 1 && k.drop_last() == key {
                        assert(m.contains_key(k.drop_last()));
                    }
                }
            }
        }
        Ok(())
    }

    pub fn make_one(&mut self, p: &FsPath, t: &CreateType) -> (r: Result<(), FsError>)
        requires
            old(self).wf(),
        ensures
            final(self).wf(),
            replays_to(old(self)@, old(self).journal@, final(self)@, final(self).journal@),
            r is Ok <==> make_one(old(self)@, p@, *t) is Ok,
            r matches Ok(_) ==> final(self)@ == make_one(old(self)@, p@, *t)->Ok_0,
            r matches Err(e) ==> make_one(old(self)@, p@, *t) == Err::<
                Map<PathView, Node>,
                FsError,
            >(e) && final(self)@ == old(self)@,
    {
        match t {
            CreateType::Dir => self.make_dir(p),
            CreateType::File => self.make_file(p),
        }
    }
}

/// Creates files or directories at `paths`. One path fails as it fails alone;
/// of several, each that can be made is made, the others are passed over, and
/// the call succeeds.
pub fn create(fs: &mut FileTree, paths: &Vec<FsPath>, create_type: &CreateType) -> (r: Result<
    (),
    FsError,
>)
    requires
        old(fs).wf(),
    ensures
        final(fs).wf(),
        replays_to(old(fs)@, old(fs).journal@, final(fs)@, final(fs).journal@),
        r is Ok <==> make_all(old(fs)@, views(paths@), *create_type) is Ok,
        r matches Ok(_) ==> final(fs)@ == make_all(old(fs)@, views(paths@), *create_type)->Ok_0,
        r matches Err(e) ==> make_all(old(fs)@, views(paths@), *create_type) == Err::<
            Map<PathView, Node>,
            FsError,
        >(e) && final(fs)@ == old(fs)@,
{
    if paths.len() == 1 {
        return fs.make_one(&paths[0], create_type);
    }
    let ghost m = fs@;
    let ghost j0 = fs.journal@;
    proof {
        lemma_replays_refl(m, j0);
    }
    let mut i: usize = 0;
    while i < paths.len()
        invariant
            fs.wf(),
            i <= paths@.len(),
            fs@ == make_each(m, views(paths@).take(i as int), *create_type),
            replays_to(m, j0, fs@, fs.journal@),
        decreases paths.len() - i,
    {
        let ghost before = fs@;
        let ghost jb = fs.journal@;
        let _ = fs.make_one(&paths[i], create_type);
        proof {
            lemma_replays_trans(m, j0, before, jb, fs@, fs.journal@);
            let ps = views(paths@).take(i + 1);
            assert(ps.drop_last() =~= views(paths@).take(i as int));
        }
        i = i + 1;
    }
    proof {
        assert(views(paths@).take(paths@.len() as int) =~= views(paths@));
    }
    Ok(())
}

} // verus!
