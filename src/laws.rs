use vstd::prelude::*;
use crate::copy::{
    copy_all, copy_check, copy_one, lemma_ancestor, lemma_copy_closed, lemma_prefix_of_sum,
    lemma_prefix_split, move_all, origin_of, target_of,
};
use crate::extract::{extracted, flat_target, is_loose};
use crate::ops::{clean_all, remove_all};
use crate::path::{is_prefix, PathView};
use crate::tree::{children, closed, is_dir_in, is_file_in, remove_under, FsError, Node};

verus! {

/// Copying `s` into `to` puts below the target `to/name(s)` a mirror of `s`:
/// every path below `s` has its counterpart below the target, with the same
/// node (so a file keeps its content), and nothing else lies below the target.
pub proof fn lemma_copy_mirrors(m: Map<PathView, Node>, s: PathView, to: PathView)
    requires
        closed(m),
        copy_check(m, s, to) is None,
    ensures
        forall|q: PathView|
            m.contains_key(q) && is_prefix(s, q) ==> #[trigger] copy_one(m, s, to).contains_key(
                target_of(s, to) + q.skip(s.len() as int),
            ) && copy_one(m, s, to)[target_of(s, to) + q.skip(s.len() as int)] == m[q],
        forall|k: PathView|
            copy_one(m, s, to).contains_key(k) && is_prefix(target_of(s, to), k)
                ==> #[trigger] m.contains_key(origin_of(s, target_of(s, to), k)),
{
    let t = target_of(s, to);
    let r = copy_one(m, s, to);
    assert forall|q: PathView|
        m.contains_key(q) && is_prefix(s, q) implies #[trigger] r.contains_key(
        t + q.skip(s.len() as int),
    ) && r[t + q.skip(s.len() as int)] == m[q] by {
        let k = t + q.skip(s.len() as int);
        lemma_prefix_of_sum(t, q.skip(s.len() as int));
        lemma_prefix_split(s, q);
        assert(origin_of(s, t, k) == q);
    }
    assert forall|k: PathView|
        r.contains_key(k) && is_prefix(t, k) implies #[trigger] m.contains_key(origin_of(s, t, k)) by {
        if !m.contains_key(origin_of(s, t, k)) {
            assert(m.contains_key(k));
            if k.len() == t.len() {
                assert(k =~= t);
                assert(k.skip(t.len() as int) =~= Seq::<Seq<char>>::empty());
                assert(origin_of(s, t, k) =~= s);
            } else {
                lemma_ancestor(m, t, k);
            }
        }
    }
}

/// Copying a file adds one entry, at its target, with the file's node.
proof fn lemma_copy_file_is_insert(m: Map<PathView, Node>, s: PathView, to: PathView)
    requires
        closed(m),
        copy_check(m, s, to) is None,
        is_file_in(m, s),
    ensures
        copy_one(m, s, to) == m.insert(target_of(s, to), m[s]),
{
    let t = target_of(s, to);
    assert(t.skip(t.len() as int) =~= Seq::<Seq<char>>::empty());
    assert(origin_of(s, t, t) =~= s);
    assert(t.take(t.len() as int) =~= t);
    assert forall|k: PathView| crate::copy::is_copy(m, s, t, k) implies k == t by {
        let o = origin_of(s, t, k);
        lemma_prefix_of_sum(s, k.skip(t.len() as int));
        if k.len() > t.len() {
            lemma_ancestor(m, s, o);
        } else {
            assert(k =~= t);
        }
    }
    assert(copy_one(m, s, to) =~= m.insert(t, m[s]));
}

/// Copying files, each with a name of its own, none of them already in `to`:
/// each target holds the node of its source, and every other path is as it was.
proof fn lemma_copy_files_keep(m: Map<PathView, Node>, ss: Seq<PathView>, to: PathView)
    requires
        closed(m),
        copy_all(m, ss, to) is Ok,
        forall|i: int| 0 <= i < ss.len() ==> is_file_in(m, #[trigger] ss[i]),
        forall|i: int, j: int|
            0 <= i < ss.len() && 0 <= j < ss.len() && i != j ==> #[trigger] ss[i].last()
                != #[trigger] ss[j].last(),
        forall|i: int| 0 <= i < ss.len() ==> #[trigger] ss[i].drop_last() != to,
    ensures
        closed(copy_all(m, ss, to)->Ok_0),
        forall|i: int|
            0 <= i < ss.len() ==> copy_all(m, ss, to)->Ok_0.contains_key(
                #[trigger] target_of(ss[i], to),
            ) && copy_all(m, ss, to)->Ok_0[target_of(ss[i], to)] == m[ss[i]],
        forall|k: PathView|
            (forall|i: int| 0 <= i < ss.len() ==> k != #[trigger] target_of(ss[i], to)) ==> (
            #[trigger] copy_all(m, ss, to)->Ok_0.contains_key(k) == m.contains_key(k) && copy_all(
                m,
                ss,
                to,
            )->Ok_0[k] == m[k]),
    decreases ss.len(),
{
    if ss.len() > 0 {
        let init = ss.drop_last();
        let n = ss.len() - 1;
        let s = ss[n];
        assert(ss.last() == s);
        assert(copy_all(m, init, to) is Ok);
        lemma_copy_files_keep(m, init, to);
        let r0 = copy_all(m, init, to)->Ok_0;
        assert forall|i: int| 0 <= i < init.len() implies s != #[trigger] target_of(init[i], to) by {
            assert(target_of(init[i], to).drop_last() =~= to);
            assert(init[i] == ss[i]);
        }
        assert(is_file_in(m, s));
        assert(copy_check(r0, s, to) is None);
        lemma_copy_file_is_insert(r0, s, to);
        lemma_copy_closed(r0, s, to);
        let t = target_of(s, to);
        let r = copy_all(m, ss, to)->Ok_0;
        assert(r == r0.insert(t, m[s]));
        assert forall|i: int|
            0 <= i < ss.len() implies r.contains_key(#[trigger] target_of(ss[i], to)) && r[target_of(
            ss[i],
            to,
        )] == m[ss[i]] by {
            if i < n {
                assert(init[i] == ss[i]);
                assert(ss[i].last() != s.last());
                assert(target_of(ss[i], to).last() != t.last());
            }
        }
        assert forall|k: PathView|
            (forall|i: int| 0 <= i < ss.len() ==> k != #[trigger] target_of(ss[i], to)) implies (
            #[trigger] r.contains_key(k) == m.contains_key(k) && r[k] == m[k]) by {
            assert(k != target_of(ss[n], to));
            assert forall|i: int| 0 <= i < init.len() implies k != #[trigger] target_of(init[i], to) by {
                assert(init[i] == ss[i]);
                assert(k != target_of(ss[i], to));
            }
        }
    }
}

/// Copying files, each with a name of its own and none from `to` itself,
/// leaves in `to` a file of each name holding the same content as its source.
pub proof fn lemma_copy_files(m: Map<PathView, Node>, ss: Seq<PathView>, to: PathView)
    requires
        closed(m),
        copy_all(m, ss, to) is Ok,
        forall|i: int| 0 <= i < ss.len() ==> is_file_in(m, #[trigger] ss[i]),
        forall|i: int, j: int|
            0 <= i < ss.len() && 0 <= j < ss.len() && i != j ==> #[trigger] ss[i].last()
                != #[trigger] ss[j].last(),
        forall|i: int| 0 <= i < ss.len() ==> #[trigger] ss[i].drop_last() != to,
    ensures
        forall|i: int|
            0 <= i < ss.len() ==> copy_all(m, ss, to)->Ok_0.contains_key(
                #[trigger] to.push(ss[i].last()),
            ) && copy_all(m, ss, to)->Ok_0[to.push(ss[i].last())] == m[ss[i]],
{
    lemma_copy_files_keep(m, ss, to);
    assert forall|i: int| 0 <= i < ss.len() implies copy_all(m, ss, to)->Ok_0.contains_key(
        #[trigger] to.push(ss[i].last()),
    ) && copy_all(m, ss, to)->Ok_0[to.push(ss[i].last())] == m[ss[i]] by {
        assert(target_of(ss[i], to) == to.push(ss[i].last()));
    }
}

/// Removing a path takes away exactly the paths below it.
proof fn lemma_remove_all_keeps(c: Map<PathView, Node>, ss: Seq<PathView>)
    requires
        remove_all(c, ss) is Ok,
    ensures
        forall|k: PathView| #[trigger]
            remove_all(c, ss)->Ok_0.contains_key(k) <==> c.contains_key(k) && forall|i: int|
                0 <= i < ss.len() ==> !is_prefix(#[trigger] ss[i], k),
        forall|k: PathView| #[trigger]
            remove_all(c, ss)->Ok_0.contains_key(k) ==> remove_all(c, ss)->Ok_0[k] == c[k],
    decreases ss.len(),
{
    if ss.len() > 0 {
        let init = ss.drop_last();
        lemma_remove_all_keeps(c, init);
        let r = remove_all(c, ss)->Ok_0;
        assert forall|k: PathView| #[trigger] r.contains_key(k) <==> c.contains_key(k) && forall|i: int|
            0 <= i < ss.len() ==> !is_prefix(#[trigger] ss[i], k) by {
            if r.contains_key(k) {
                assert forall|i: int| 0 <= i < ss.len() implies !is_prefix(#[trigger] ss[i], k) by {
                    if i < init.len() {
                        assert(init[i] == ss[i]);
                    }
                }
            }
            if c.contains_key(k) && forall|i: int| 0 <= i < ss.len() ==> !is_prefix(#[trigger] ss[i], k) {
                assert forall|i: int| 0 <= i < init.len() implies !is_prefix(#[trigger] init[i], k) by {
                    assert(init[i] == ss[i]);
                }
                assert(!is_prefix(ss[ss.len() - 1], k));
            }
        }
    }
}

/// After a move succeeds, none of the sources exists, and every path that no
/// source covers stands as the copy alone would have left it: the copies
/// below `to` are a full mirror unless a source lies above them.
pub proof fn lemma_move(m: Map<PathView, Node>, ss: Seq<PathView>, to: PathView)
    requires
        move_all(m, ss, to) is Ok,
    ensures
        copy_all(m, ss, to) is Ok,
        forall|i: int|
            0 <= i < ss.len() ==> !move_all(m, ss, to)->Ok_0.contains_key(#[trigger] ss[i]),
        forall|k: PathView|
            (forall|i: int| 0 <= i < ss.len() ==> !is_prefix(#[trigger] ss[i], k)) ==> (
            #[trigger] move_all(m, ss, to)->Ok_0.contains_key(k) == copy_all(m, ss, to)->Ok_0.contains_key(k)
                && (move_all(m, ss, to)->Ok_0.contains_key(k) ==> move_all(m, ss, to)->Ok_0[k]
                == copy_all(m, ss, to)->Ok_0[k])),
{
    let c = copy_all(m, ss, to)->Ok_0;
    lemma_remove_all_keeps(c, ss);
    let r = move_all(m, ss, to)->Ok_0;
    assert forall|i: int| 0 <= i < ss.len() implies !r.contains_key(#[trigger] ss[i]) by {
        assert(ss[i].take(ss[i].len() as int) =~= ss[i]);
        assert(is_prefix(ss[i], ss[i]));
    }
}

/// After a directory is cleaned, it is there, as a directory, and nothing
/// lies in it.
pub proof fn lemma_clean_empties(m: Map<PathView, Node>, d: PathView)
    requires
        clean_all(m, seq![d]) is Ok,
    ensures
        is_dir_in(clean_all(m, seq![d])->Ok_0, d),
        children(clean_all(m, seq![d])->Ok_0, d) == Set::<PathView>::empty(),
{
    assert(seq![d].drop_last() =~= Seq::<PathView>::empty());
    assert(seq![d].last() == d);
    assert(clean_all(m, Seq::<PathView>::empty()) == Ok::<Map<PathView, Node>, FsError>(m));
    let r = clean_all(m, seq![d])->Ok_0;
    assert(r == remove_under(m, d).insert(d, Node::Dir { size: 0 }));
    assert(children(r, d) =~= Set::<PathView>::empty()) by {
        assert forall|k: PathView| !children(r, d).contains(k) by {
            if r.contains_key(k) && k.len() == d.len() + 1 && is_prefix(d, k) {
                assert(k != d);
            }
        }
    }
}

/// Removing a path that an earlier removal took away fails with `NotFound`.
pub proof fn lemma_remove_twice(m: Map<PathView, Node>, p: PathView)
    requires
        remove_all(m, seq![p]) is Ok,
    ensures
        remove_all(remove_all(m, seq![p])->Ok_0, seq![p]) == Err::<Map<PathView, Node>, FsError>(
            FsError::NotFound,
        ),
{
    assert(seq![p].drop_last() =~= Seq::<PathView>::empty());
    assert(seq![p].last() == p);
    assert(remove_all(m, Seq::<PathView>::empty()) == Ok::<Map<PathView, Node>, FsError>(m));
    let r = remove_all(m, seq![p])->Ok_0;
    assert(remove_all(r, Seq::<PathView>::empty()) == Ok::<Map<PathView, Node>, FsError>(r));
    assert(r == remove_under(m, p));
    assert(p.take(p.len() as int) =~= p);
    assert(!r.contains_key(p));
}

/// After an extraction, every file found below the sources, at any depth,
/// has a file of its name directly in `to`; and where `to` held no
/// directory before, it holds none after.
pub proof fn lemma_extract_flat(
    m: Map<PathView, Node>,
    ss: Seq<PathView>,
    to: PathView,
    r: Map<PathView, Node>,
)
    requires
        extracted(m, ss, to, r),
    ensures
        forall|q: PathView| #[trigger]
            is_loose(m, ss, q) ==> is_file_in(r, flat_target(q, to)),
        (forall|k: PathView| #[trigger] children(m, to).contains(k) ==> m[k] is File) ==> forall|
            k: PathView,
        | #[trigger] children(r, to).contains(k) ==> r[k] is File,
{
    assert forall|q: PathView| #[trigger] is_loose(m, ss, q) implies is_file_in(r, flat_target(q, to)) by {
        assert(r.contains_key(flat_target(q, to)));
        assert(crate::extract::drawn_from(m, ss, q, r[flat_target(q, to)]));
    }
    if forall|k: PathView| #[trigger] children(m, to).contains(k) ==> m[k] is File {
        assert forall|k: PathView| #[trigger] children(r, to).contains(k) implies r[k] is File by {
            if exists|q: PathView| is_loose(m, ss, q) && k == flat_target(q, to) {
                let q = choose|q: PathView| is_loose(m, ss, q) && k == flat_target(q, to);
                assert(crate::extract::drawn_from(m, ss, q, r[flat_target(q, to)]));
            } else {
                assert(children(m, to).contains(k));
            }
        }
    }
}

} // verus!
