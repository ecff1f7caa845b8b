use vstd::prelude::*;

verus! {

/// The abstract form of a path: one name per level, outermost first.
pub type PathView = Seq<Seq<char>>;

/// `a` names `b` itself or one of its ancestors.
pub open spec fn is_prefix(a: PathView, b: PathView) -> bool {
    a.len() <= b.len() && b.take(a.len() as int) == a
}

/// A location, one name per level, outermost first.
#[derive(Debug)]
pub struct FsPath {
    pub parts: Vec<String>,
}

impl View for FsPath {
    type V = PathView;

    open spec fn view(&self) -> PathView {
        self.parts@.map_values(|s: String| s@)
    }
}

impl FsPath {
    pub fn new(parts: Vec<String>) -> (r: FsPath)
        ensures
            r.parts@ == parts@,
    {
        FsPath { parts }
    }

    pub fn len(&self) -> (r: usize)
        ensures
            r == self@.len(),
    {
        self.parts.len()
    }

    /// The first `n` levels of this path.
    pub fn prefix(&self, n: usize) -> (r: FsPath)
        requires
            n <= self@.len(),
        ensures
            r@ == self@.take(n as int),
    {
        let mut parts: Vec<String> = Vec::new();
        let mut i: usize = 0;
        while i < n
            invariant
                i <= n <= self.parts.len(),
                parts@.len() == i,
                forall|j: int| 0 <= j < i ==> #[trigger] parts@[j]@ == self.parts@[j]@,
            decreases n - i,
        {
            parts.push(self.parts[i].clone());
            i = i + 1;
        }
        let r = FsPath { parts };
        assert(r@ =~= self@.take(n as int));
        r
    }

    pub fn duplicate(&self) -> (r: FsPath)
        ensures
            r@ == self@,
    {
        let r = self.prefix(self.parts.len());
        assert(self@.take(self@.len() as int) =~= self@);
        r
    }

    /// This path with one more level below it.
    pub fn join(&self, name: &String) -> (r: FsPath)
        ensures
            r@ == self@.push(name@),
    {
        let mut r = self.duplicate();
        r.parts.push(name.clone());
        assert(r@ =~= self@.push(name@));
        r
    }

    /// The enclosing directory.
    pub fn parent(&self) -> (r: FsPath)
        requires
            self@.len() > 0,
        ensures
            r@ == self@.drop_last(),
    {
        let r = self.prefix(self.parts.len() - 1);
        assert(self@.take(self@.len() - 1) =~= self@.drop_last());
        r
    }

    /// The last level's name.
    pub fn file_name(&self) -> (r: &String)
        requires
            self@.len() > 0,
        ensures
            r@ == self@.last(),
    {
        &self.parts[self.parts.len() - 1]
    }

    pub fn same(&self, other: &FsPath) -> (r: bool)
        ensures
            r == (self@ == other@),
    {
        proof {
            assert(self@.take(self@.len() as int) =~= self@);
        }
        self.starts_with(other) && self.parts.len() == other.parts.len()
    }

    /// Whether `p` names this path or one of its ancestors.
    pub fn starts_with(&self, p: &FsPath) -> (r: bool)
        ensures
            r == is_prefix(p@, self@),
            r && self@.len() == p@.len() ==> self@ == p@,
    {
        if p.parts.len() > self.parts.len() {
            return false;
        }
        let mut i: usize = 0;
        while i < p.parts.len()
            invariant
                p.parts.len() <= self.parts.len(),
                i <= p.parts.len(),
                forall|j: int| 0 <= j < i ==> #[trigger] self.parts@[j]@ == p.parts@[j]@,
            decreases p.parts.len() - i,
        {
            if self.parts[i] != p.parts[i] {
                assert(self@.take(p@.len() as int)[i as int] != p@[i as int]);
                return false;
            }
            i = i + 1;
        }
        assert(self@.take(p@.len() as int) =~= p@);
        proof {
            if self@.len() == p@.len() {
                assert(self@ =~= p@);
            }
        }
        true
    }

    /// This path moved from below `from` to below `onto`.
    pub fn rebase(&self, from: &FsPath, onto: &FsPath) -> (r: FsPath)
        requires
            is_prefix(from@, self@),
        ensures
            r@ == onto@ + self@.skip(from@.len() as int),
    {
        let mut r = onto.duplicate();
        let mut i: usize = from.parts.len();
        while i < self.parts.len()
            invariant
                from@.len() <= i <= self.parts.len(),
                r@ == onto@ + self@.subrange(from@.len() as int, i as int),
            decreases self.parts.len() - i,
        {
            let ghost before = r@;
            r.parts.push(self.parts[i].clone());
            assert(r@ =~= before.push(self@[i as int]));
            assert(self@.subrange(from@.len() as int, i + 1) =~= self@.subrange(
                from@.len() as int,
                i as int,
            ).push(self@[i as int]));
            assert(r@ =~= onto@ + self@.subrange(from@.len() as int, i + 1));
            i = i + 1;
        }
        assert(self@.subrange(from@.len() as int, self@.len() as int) =~= self@.skip(
            from@.len() as int,
        ));
        r
    }
}

} // verus!
