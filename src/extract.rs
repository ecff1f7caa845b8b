use vstd::prelude::*;
use crate::path::{is_prefix, FsPath, PathView};
use crate::tree::{
    apply, closed, distinct, is_file_in, lemma_map_of, lemma_replays_refl, lemma_replays_step, map_of,
    replays_to, same_shape, Entry, FileTree, FsError, Node, Op,
};
use crate::utils::views;

verus! {

/// `q` lies below one of the sources `ss` (and is none of them).
pub open spec fn below_some(ss: Seq<PathView>, q: PathView) -> bool {
    exists|i: int| 0 <= i < ss.len() && is_prefix(ss[i], q) && q.len() > ss[i].len()
}

/// `q` is a file that extracting `ss` brings out.
pub open spec fn is_loose(m: Map<PathView, Node>, ss: Seq<PathView>, q: PathView) -> bool {
    is_file_in(m, q) && below_some(ss, q)
}

/// Where a file `q` extracted into `to` goes.
pub open spec fn flat_target(q: PathView, to: PathView) -> PathView {
    to.push(q.last())
}

/// The first source, in order, that is not a directory, and why.
pub open spec fn sources_check(m: Map<PathView, Node>, ss: Seq<PathView>) -> Option<FsError>
    decreases ss.len(),
{
    if ss.len() == 0 {
        None
    } else {
        match sources_check(m, ss.drop_last()) {
            Some(e) => Some(e),
            None => {
                let s = ss.last();
                if s.len() > 0 && !m.contains_key(s) {
                    Some(FsError::NotFound)
                } else if s.len() > 0 && m[s] is File {
                    Some(FsError::InvalidInput)
                } else {
                    None
                }
            },
        }
    }
}

/// Why extracting `ss` into `to` cannot start, if it cannot.
pub open spec fn extract_check(m: Map<PathView, Node>, ss: Seq<PathView>, to: PathView) -> Option<
    FsError,
> {
    if ss.len() == 0 {
        Some(FsError::InvalidInput)
    } else if sources_check(m, ss) is Some {
        sources_check(m, ss)
    } else if exists|q: PathView| is_loose(m, ss, q) {
        if to.len() > 0 && !m.contains_key(to) {
            Some(FsError::NotFound)
        } else if to.len() > 0 && m[to] is File {
            Some(FsError::InvalidInput)
        } else if exists|q: PathView|
            is_loose(m, ss, q) && m.contains_key(flat_target(q, to)) && m[flat_target(
                q,
                to,
            )] is Dir {
            Some(FsError::IoFailure)
        } else {
            None
        }
    } else {
        None
    }
}

/// The tree after extracting: every loose file stands directly in `to`, one
/// of those with the same name where several share it, and nothing else
/// changed.
pub open spec fn extracted(
    m: Map<PathView, Node>,
    ss: Seq<PathView>,
    to: PathView,
    r: Map<PathView, Node>,
) -> bool {
    &&& forall|k: PathView| #[trigger]
        r.contains_key(k) <==> m.contains_key(k) || exists|q: PathView|
            is_loose(m, ss, q) && k == flat_target(q, to)
    &&& forall|k: PathView|
        #[trigger] r.contains_key(k) && !(exists|q: PathView|
            is_loose(m, ss, q) && k == flat_target(q, to)) ==> r[k] == m[k]
    &&& forall|q: PathView|
        #![trigger flat_target(q, to)]
        is_loose(m, ss, q) ==> drawn_from(m, ss, q, r[flat_target(q, to)])
}

/// `n` is what stands at a loose file of the same name as `q`.
pub open spec fn drawn_from(m: Map<PathView, Node>, ss: Seq<PathView>, q: PathView, n: Node) -> bool {
    exists|g: PathView| is_loose(m, ss, g) && g.last() == q.last() && n == m[g]
}

/// Whether `q` lies below one of `ss`.
fn is_below_some(ss: &Vec<FsPath>, q: &FsPath) -> (r: bool)
    ensures
        r == below_some(views(ss@), q@),
{
    let mut i: usize = 0;
    while i < ss.len()
        invariant
            i <= ss@.len(),
            forall|j: int|
                0 <= j < i ==> !(is_prefix(#[trigger] views(ss@)[j], q@) && q@.len() > views(
                    ss@,
                )[j].len()),
        decreases ss.len() - i,
    {
        if q.len() > ss[i].len() && q.starts_with(&ss[i]) {
            assert(views(ss@)[i as int] == ss@[i as int]@);
            return true;
        }
        assert(views(ss@)[i as int] == ss@[i as int]@);
        i = i + 1;
    }
    false
}

proof fn lemma_sources_step(m: Map<PathView, Node>, ss: Seq<PathView>, i: int)
    requires
        0 <= i < ss.len(),
    ensures
        sources_check(m, ss.take(i + 1)) == match sources_check(m, ss.take(i)) {
            Some(e) => Some(e),
            None => if ss[i].len() > 0 && !m.contains_key(ss[i]) {
                Some(FsError::NotFound)
            } else if ss[i].len() > 0 && m[ss[i]] is File {
                Some(FsError::InvalidInput)
            } else {
                None
            },
        },
{
    assert(ss.take(i + 1).drop_last() =~= ss.take(i));
}

proof fn lemma_sources_stops(m: Map<PathView, Node>, ss: Seq<PathView>, i: int)
    requires
        0 <= i <= ss.len(),
        sources_check(m, ss.take(i)) is Some,
    ensures
        sources_check(m, ss) == sources_check(m, ss.take(i)),
    decreases ss.len() - i,
{
    if i < ss.len() {
        lemma_sources_step(m, ss, i);
        lemma_sources_stops(m, ss, i + 1);
    } else {
        assert(ss.take(i) =~= ss);
    }
}


/// `k` is where one of the first `j` entries, a loose file, was put.
pub open spec fn hit(
    m: Map<PathView, Node>,
    ss: Seq<PathView>,
    to: PathView,
    es: Seq<Entry>,
    j: int,
    k: PathView,
) -> bool {
    exists|a: int| 0 <= a < j && is_loose(m, ss, es[a].path@) && k == flat_target(es[a].path@, to)
}

/// After the first `j` entries have been handled.
#[verifier::opaque]
pub open spec fn flat_inv(
    m: Map<PathView, Node>,
    ss: Seq<PathView>,
    to: PathView,
    es: Seq<Entry>,
    j: int,
    r: Map<PathView, Node>,
) -> bool {
    &&& forall|k: PathView| #[trigger]
        r.contains_key(k) <==> m.contains_key(k) || hit(m, ss, to, es, j, k)
    &&& forall|k: PathView| #[trigger] r.contains_key(k) && !hit(m, ss, to, es, j, k) ==> r[k] == m[k]
    &&& forall|a: int|
        #![trigger flat_target(es[a].path@, to)]
        0 <= a < j && is_loose(m, ss, es[a].path@) ==> exists|b: int|
            0 <= b < j && is_loose(m, ss, es[b].path@) && es[b].path@.last() == es[a].path@.last()
                && r[flat_target(es[a].path@, to)] == m[es[b].path@]
}

proof fn lemma_flat_put(
    m: Map<PathView, Node>,
    ss: Seq<PathView>,
    to: PathView,
    es: Seq<Entry>,
    j: int,
    r: Map<PathView, Node>,
)
    requires
        0 <= j < es.len(),
        flat_inv(m, ss, to, es, j, r),
        is_loose(m, ss, es[j].path@),
        m[es[j].path@] == es[j].node,
    ensures
        flat_inv(m, ss, to, es, j + 1, r.insert(flat_target(es[j].path@, to), es[j].node)),
{
    reveal(flat_inv);
    let qv = es[j].path@;
    let tv = flat_target(qv, to);
    let r2 = r.insert(tv, es[j].node);
    assert forall|k: PathView| #[trigger]
        r2.contains_key(k) <==> m.contains_key(k) || hit(m, ss, to, es, j + 1, k) by {
        if hit(m, ss, to, es, j, k) {
            let a = choose|a: int| 0 <= a < j && is_loose(m, ss, es[a].path@) && k == flat_target(es[a].path@, to);
            assert(0 <= a < j + 1);
        }
        if hit(m, ss, to, es, j + 1, k) && k != tv {
            let a = choose|a: int| 0 <= a < j + 1 && is_loose(m, ss, es[a].path@) && k == flat_target(es[a].path@, to);
            assert(hit(m, ss, to, es, j, k));
        }
        if k == tv {
            assert(hit(m, ss, to, es, j + 1, k));
        }
    }
    assert forall|k: PathView| #[trigger] r2.contains_key(k) && !hit(m, ss, to, es, j + 1, k) implies r2[k] == m[k] by {
        if k == tv {
            assert(hit(m, ss, to, es, j + 1, k));
        }
        if hit(m, ss, to, es, j, k) {
            let a = choose|a: int| 0 <= a < j && is_loose(m, ss, es[a].path@) && k == flat_target(es[a].path@, to);
            assert(0 <= a < j + 1);
        }
    }
    assert forall|a: int|
        #![trigger flat_target(es[a].path@, to)]
        0 <= a < j + 1 && is_loose(m, ss, es[a].path@) implies exists|b: int|
            0 <= b < j + 1 && is_loose(m, ss, es[b].path@) && es[b].path@.last() == es[a].path@.last()
                && r2[flat_target(es[a].path@, to)] == m[es[b].path@] by {
        if flat_target(es[a].path@, to) == tv {
            assert(es[a].path@.last() == flat_target(es[a].path@, to).last());
            assert(qv.last() == tv.last());
        } else {
            let b = choose|b: int|
                0 <= b < j && is_loose(m, ss, es[b].path@) && es[b].path@.last() == es[a].path@.last()
                    && r[flat_target(es[a].path@, to)] == m[es[b].path@];
        }
    }
}

proof fn lemma_flat_skip(
    m: Map<PathView, Node>,
    ss: Seq<PathView>,
    to: PathView,
    es: Seq<Entry>,
    j: int,
    r: Map<PathView, Node>,
)
    requires
        0 <= j < es.len(),
        flat_inv(m, ss, to, es, j, r),
        !is_loose(m, ss, es[j].path@),
    ensures
        flat_inv(m, ss, to, es, j + 1, r),
{
    reveal(flat_inv);
    assert forall|k: PathView| hit(m, ss, to, es, j + 1, k) == hit(m, ss, to, es, j, k) by {
        if hit(m, ss, to, es, j + 1, k) {
            let a = choose|a: int| 0 <= a < j + 1 && is_loose(m, ss, es[a].path@) && k == flat_target(es[a].path@, to);
            assert(hit(m, ss, to, es, j, k));
        }
        if hit(m, ss, to, es, j, k) {
            let a = choose|a: int| 0 <= a < j && is_loose(m, ss, es[a].path@) && k == flat_target(es[a].path@, to);
            assert(0 <= a < j + 1);
        }
    }
    assert forall|a: int|
        #![trigger flat_target(es[a].path@, to)]
        0 <= a < j + 1 && is_loose(m, ss, es[a].path@) implies exists|b: int|
            0 <= b < j + 1 && is_loose(m, ss, es[b].path@) && es[b].path@.last() == es[a].path@.last()
                && r[flat_target(es[a].path@, to)] == m[es[b].path@] by {
        let b = choose|b: int|
            0 <= b < j && is_loose(m, ss, es[b].path@) && es[b].path@.last() == es[a].path@.last()
                && r[flat_target(es[a].path@, to)] == m[es[b].path@];
    }
}

proof fn lemma_hit_all(
    m: Map<PathView, Node>,
    ss: Seq<PathView>,
    to: PathView,
    es: Seq<Entry>,
)
    requires
        map_of(es) == m,
        distinct(es),
    ensures
        forall|k: PathView| #[trigger] hit(m, ss, to, es, es.len() as int, k) <==> exists|q: PathView|
            is_loose(m, ss, q) && k == flat_target(q, to),
{
    lemma_map_of(es);
    let n = es.len() as int;
    assert forall|k: PathView| #[trigger] hit(m, ss, to, es, n, k) <==> exists|q: PathView|
        is_loose(m, ss, q) && k == flat_target(q, to) by {
        if exists|q: PathView| is_loose(m, ss, q) && k == flat_target(q, to) {
            let q = choose|q: PathView| is_loose(m, ss, q) && k == flat_target(q, to);
            let a = choose|a: int| 0 <= a < n && es[a].path@ == q;
            assert(is_loose(m, ss, es[a].path@));
        }
        if hit(m, ss, to, es, n, k) {
            let a = choose|a: int| 0 <= a < n && is_loose(m, ss, es[a].path@) && k == flat_target(es[a].path@, to);
            assert(is_loose(m, ss, es[a].path@));
        }
    }
}

proof fn lemma_flat_chosen(
    m: Map<PathView, Node>,
    ss: Seq<PathView>,
    to: PathView,
    es: Seq<Entry>,
    r: Map<PathView, Node>,
)
    requires
        map_of(es) == m,
        distinct(es),
        flat_inv(m, ss, to, es, es.len() as int, r),
    ensures
        forall|q: PathView|
            #![trigger flat_target(q, to)]
            is_loose(m, ss, q) ==> drawn_from(m, ss, q, r[flat_target(q, to)]),
{
    reveal(flat_inv);
    lemma_map_of(es);
    let n = es.len() as int;
    assert forall|q: PathView|
        #![trigger flat_target(q, to)]
        is_loose(m, ss, q) implies drawn_from(m, ss, q, r[flat_target(q, to)]) by {
        let a = choose|a: int| 0 <= a < n && es[a].path@ == q;
        assert(is_loose(m, ss, es[a].path@));
        assert(r[flat_target(es[a].path@, to)] == r[flat_target(q, to)]);
        let b = choose|b: int|
            0 <= b < n && is_loose(m, ss, es[b].path@) && es[b].path@.last() == es[a].path@.last()
                && r[flat_target(es[a].path@, to)] == m[es[b].path@];
        let g = es[b].path@;
        assert(is_loose(m, ss, g) && g.last() == q.last() && r[flat_target(q, to)] == m[g]);
    }
}

proof fn lemma_flat_closed(
    m: Map<PathView, Node>,
    ss: Seq<PathView>,
    to: PathView,
    r: Map<PathView, Node>,
)
    requires
        closed(m),
        (exists|q: PathView| is_loose(m, ss, q)) ==> to.len() == 0 || (m.contains_key(to)
            && m[to] is Dir),
        forall|q: PathView|
            is_loose(m, ss, q) ==> !(m.contains_key(#[trigger] flat_target(q, to)) && m[flat_target(q, to)] is Dir),
        forall|k: PathView| #[trigger]
            r.contains_key(k) <==> m.contains_key(k) || exists|q: PathView|
                is_loose(m, ss, q) && k == flat_target(q, to),
        forall|k: PathView|
            #[trigger] r.contains_key(k) && !(exists|q: PathView|
                is_loose(m, ss, q) && k == flat_target(q, to)) ==> r[k] == m[k],
    ensures
        closed(r),
{
    assert forall|k: PathView| #[trigger] r.contains_key(k) implies k.len() > 0 && (k.len() > 1
        ==> r.contains_key(k.drop_last()) && r[k.drop_last()] is Dir) by {
        if m.contains_key(k) {
            assert(k.len() > 0);
            let p = k.drop_last();
            if k.len() > 1 {
                assert(m.contains_key(p) && m[p] is Dir);
                assert(r.contains_key(p));
                if exists|q: PathView| is_loose(m, ss, q) && p == flat_target(q, to) {
                    let q = choose|q: PathView| is_loose(m, ss, q) && p == flat_target(q, to);
                    assert(m.contains_key(flat_target(q, to)));
                    assert(false);
                }
                assert(r[p] == m[p]);
            }
        } else {
            let q = choose|q: PathView| is_loose(m, ss, q) && k == flat_target(q, to);
            assert(is_loose(m, ss, q));
            let p = k.drop_last();
            assert(p =~= to);
            assert(k.len() > 0);
            if k.len() > 1 {
                assert(m.contains_key(to) && m[to] is Dir);
                assert(r.contains_key(p));
                if exists|g: PathView| is_loose(m, ss, g) && p == flat_target(g, to) {
                    let g = choose|g: PathView| is_loose(m, ss, g) && p == flat_target(g, to);
                    assert(m.contains_key(flat_target(g, to)));
                    assert(false);
                }
                assert(r[p] == m[p]);
            }
        }
    }
}

/// Whether any file below `from` is to be brought out, and whether one of
/// them would land on a directory.
fn scan(fs: &FileTree, snap: &Vec<Entry>, from: &Vec<FsPath>, to: &FsPath) -> (r: (bool, bool))
    requires
        fs.wf(),
        map_of(snap@) == fs@,
        distinct(snap@),
    ensures
        r.0 == exists|q: PathView| is_loose(fs@, views(from@), q),
        r.1 == exists|q: PathView|
            is_loose(fs@, views(from@), q) && fs@.contains_key(flat_target(q, to@))
                && fs@[flat_target(q, to@)] is Dir,
{
    let ghost m = fs@;
    let ghost ss = views(from@);
    let mut any = false;
    let mut clash = false;
    let mut j: usize = 0;
    while j < snap.len()
        invariant
            fs.wf(),
            fs@ == m,
            map_of(snap@) == m,
            distinct(snap@),
            ss == views(from@),
            j <= snap@.len(),
            any == exists|a: int| 0 <= a < j && is_loose(m, ss, #[trigger] snap@[a].path@),
            clash == exists|a: int|
                0 <= a < j && is_loose(m, ss, #[trigger] snap@[a].path@) && m.contains_key(
                    flat_target(snap@[a].path@, to@),
                ) && m[flat_target(snap@[a].path@, to@)] is Dir,
        decreases snap.len() - j,
    {
        proof {
            lemma_map_of(snap@);
            assert(m.contains_key(snap@[j as int].path@));
            assert(m[snap@[j as int].path@] == snap@[j as int].node);
        }
        let q = &snap[j].path;
        if let Node::File { .. } = snap[j].node {
            if q.len() > 0 && is_below_some(from, q) {
                any = true;
                let t = to.join(q.file_name());
                if let Some(Node::Dir { .. }) = fs.get(&t) {
                    clash = true;
                }
            }
        }
        proof {
            if q@.len() == 0 {
                assert(!below_some(ss, q@));
            }
        }
        j = j + 1;
    }
    proof {
        lemma_map_of(snap@);
        if exists|q: PathView| is_loose(m, ss, q) {
            let q = choose|q: PathView| is_loose(m, ss, q);
            let a = choose|a: int| 0 <= a < snap@.len() && snap@[a].path@ == q;
            assert(is_loose(m, ss, snap@[a].path@));
        }
        if exists|q: PathView|
            is_loose(m, ss, q) && m.contains_key(flat_target(q, to@)) && m[flat_target(q, to@)] is Dir {
            let q = choose|q: PathView|
                is_loose(m, ss, q) && m.contains_key(flat_target(q, to@)) && m[flat_target(q, to@)] is Dir;
            let a = choose|a: int| 0 <= a < snap@.len() && snap@[a].path@ == q;
            assert(is_loose(m, ss, snap@[a].path@));
        }
    }
    (any, clash)
}

proof fn lemma_flat_done(
    m: Map<PathView, Node>,
    ss: Seq<PathView>,
    to: PathView,
    es: Seq<Entry>,
    r: Map<PathView, Node>,
)
    requires
        map_of(es) == m,
        distinct(es),
        closed(m),
        (exists|q: PathView| is_loose(m, ss, q)) ==> to.len() == 0 || (m.contains_key(to)
            && m[to] is Dir),
        forall|q: PathView|
            is_loose(m, ss, q) ==> !(m.contains_key(#[trigger] flat_target(q, to)) && m[flat_target(q, to)] is Dir),
        flat_inv(m, ss, to, es, es.len() as int, r),
    ensures
        extracted(m, ss, to, r),
        closed(r),
{
    lemma_hit_all(m, ss, to, es);
    lemma_flat_chosen(m, ss, to, es, r);
    reveal(flat_inv);
    lemma_flat_closed(m, ss, to, r);
}

/// No source lies above `to` (or is `to`).
pub open spec fn apart(ss: Seq<PathView>, to: PathView) -> bool {
    forall|i: int| 0 <= i < ss.len() ==> !is_prefix(#[trigger] ss[i], to)
}

/// When no source lies above `to`, a loose file still holds its own node
/// when its turn comes.
proof fn lemma_flat_source_kept(
    m: Map<PathView, Node>,
    ss: Seq<PathView>,
    to: PathView,
    es: Seq<Entry>,
    j: int,
    r: Map<PathView, Node>,
    q: PathView,
)
    requires
        flat_inv(m, ss, to, es, j, r),
        is_loose(m, ss, q),
        apart(ss, to),
    ensures
        r.contains_key(q),
        r[q] == m[q],
{
    reveal(flat_inv);
    if hit(m, ss, to, es, j, q) {
        let a = choose|a: int| 0 <= a < j && is_loose(m, ss, es[a].path@) && q == flat_target(es[a].path@, to);
        assert(q.drop_last() =~= to);
        let i = choose|i: int| 0 <= i < ss.len() && is_prefix(ss[i], q) && q.len() > ss[i].len();
        assert(to.take(ss[i].len() as int) =~= q.take(ss[i].len() as int));
        assert(is_prefix(ss[i], to));
    }
}

/// Puts a copy of every file of `snap` below `from`, in order, directly in `to`.
fn flatten(fs: &mut FileTree, snap: &Vec<Entry>, from: &Vec<FsPath>, to: &FsPath)
    requires
        distinct(old(fs).entries@),
        map_of(snap@) == old(fs)@,
        distinct(snap@),
    ensures
        distinct(final(fs).entries@),
        flat_inv(old(fs)@, views(from@), to@, snap@, snap@.len() as int, final(fs)@),
        apart(views(from@), to@) ==> replays_to(old(fs)@, old(fs).journal@, final(fs)@, final(fs).journal@),
{
    let ghost m = fs@;
    let ghost j0 = fs.journal@;
    let ghost ss = views(from@);
    proof {
        lemma_replays_refl(m, j0);
    }
    let mut j: usize = 0;
    proof {
        reveal(flat_inv);
    }
    while j < snap.len()
        invariant
            distinct(fs.entries@),
            map_of(snap@) == m,
            distinct(snap@),
            ss == views(from@),
            j <= snap@.len(),
            flat_inv(m, ss, to@, snap@, j as int, fs@),
            apart(ss, to@) ==> replays_to(m, j0, fs@, fs.journal@),
        decreases snap.len() - j,
    {
        proof {
            lemma_map_of(snap@);
            assert(m.contains_key(snap@[j as int].path@));
            assert(m[snap@[j as int].path@] == snap@[j as int].node);
        }
        let q = &snap[j].path;
        let ghost before = fs@;
        let mut moved = false;
        if let Node::File { .. } = snap[j].node {
            if q.len() > 0 && is_below_some(from, q) {
                let t = to.join(q.file_name());
                let ghost jb = fs.journal@;
                fs.journal.push(Op::CopyFile(q.duplicate(), t.duplicate()));
                fs.put(t, snap[j].node);
                moved = true;
                proof {
                    if apart(ss, to@) {
                        assert(is_loose(m, ss, q@));
                        lemma_flat_source_kept(m, ss, to@, snap@, j as int, before, q@);
                        let op = fs.journal@.last();
                        assert(fs.journal@ == jb.push(op));
                        let x = apply(before, op);
                        assert(same_shape(x, fs@)) by {
                            assert(x.dom() =~= fs@.dom());
                        }
                        lemma_replays_step(m, j0, before, jb, op, fs@);
                    }
                }
            }
        }
        proof {
            if moved {
                lemma_flat_put(m, ss, to@, snap@, j as int, before);
            } else {
                if q@.len() == 0 {
                    assert(!below_some(ss, q@));
                }
                lemma_flat_skip(m, ss, to@, snap@, j as int, before);
            }
        }
        j = j + 1;
    }
}

/// Copies every file found below the directories `from`, at any depth,
/// directly into the directory `to`. Every check is made before anything
/// changes; a later file overwrites an earlier one of the same name.
pub fn extract(fs: &mut FileTree, from: &Vec<FsPath>, to: &FsPath) -> (r: Result<(), FsError>)
    requires
        old(fs).wf(),
    ensures
        final(fs).wf(),
        r is Ok <==> extract_check(old(fs)@, views(from@), to@) is None,
        r matches Err(e) ==> extract_check(old(fs)@, views(from@), to@) == Some(e) && final(fs)@
            == old(fs)@,
        r is Ok ==> extracted(old(fs)@, views(from@), to@, final(fs)@),
        apart(views(from@), to@) ==> replays_to(old(fs)@, old(fs).journal@, final(fs)@, final(fs).journal@),
{
    let ghost m = fs@;
    let ghost ss = views(from@);
    proof {
        lemma_replays_refl(m, fs.journal@);
    }
    if from.len() == 0 {
        return Err(FsError::InvalidInput);
    }
    let mut i: usize = 0;
    while i < from.len()
        invariant
            fs@ == m,
            fs.wf(),
            fs.journal@ == old(fs).journal@,
            replays_to(m, old(fs).journal@, fs@, fs.journal@),
            ss == views(from@),
            i <= from@.len(),
            sources_check(m, ss.take(i as int)) is None,
        decreases from.len() - i,
    {
        let s = &from[i];
        proof {
            lemma_sources_step(m, ss, i as int);
        }
        if s.len() > 0 {
            match fs.get(s) {
                None => {
                    proof {
                        lemma_sources_stops(m, ss, i + 1);
                    }
                    return Err(FsError::NotFound);
                },
                Some(Node::File { .. }) => {
                    proof {
                        lemma_sources_stops(m, ss, i + 1);
                    }
                    return Err(FsError::InvalidInput);
                },
                Some(Node::Dir { .. }) => {},
            }
        }
        i = i + 1;
    }
    proof {
        assert(ss.take(from@.len() as int) =~= ss);
    }
    let snap = fs.snapshot();
    proof {
        lemma_map_of(snap@);
    }
    let (any, clash) = scan(fs, &snap, from, to);
    if any {
        if to.len() > 0 {
            match fs.get(to) {
                None => {
                    return Err(FsError::NotFound);
                },
                Some(Node::File { .. }) => {
                    return Err(FsError::InvalidInput);
                },
                Some(Node::Dir { .. }) => {},
            }
        }
        if clash {
            return Err(FsError::IoFailure);
        }
    }
    flatten(fs, &snap, from, to);
    proof {
        if !clash {
            assert forall|q: PathView| is_loose(m, ss, q) implies !(m.contains_key(
                #[trigger] flat_target(q, to@),
            ) && m[flat_target(q, to@)] is Dir) by {}
        }
    }
    proof {
        lemma_flat_done(m, ss, to@, snap@, fs@);
    }
    Ok(())
}

} // verus!
