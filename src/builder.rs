//! Building the namespace tree from the file names of a directory.
use vstd::prelude::*;
use crate::order::{same_name, sorted_names, strictly_sorted, lemma_lt_irreflexive};
use crate::segments::{split_segments, split_spec, views, lemma_split_nonempty};
use crate::tree::{
    TreeEntry, is_prefix, leaf_named, leaf_at, blocked, branch_at, lemma_prefix_closed, place, sorted_below, sorted_tree,
};

verus! {

/// Why a set of file names gives no tree.
#[derive(Debug)]
pub enum TreeError {
    /// The name does not end in a `.rs` segment after at least one other.
    Malformed(String),
    /// The name's dotted path is a prefix of another's, or the other way round.
    Collision(String),
}

/// The name is `segment(.segment)*.rs`.
pub open spec fn well_formed(name: Seq<char>) -> bool {
    &&& split_spec(name).len() >= 2
    &&& split_spec(name).last() == seq!['r', 's']
}

/// The namespace path of a name: its segments without the closing `rs`.
pub open spec fn path_of(name: Seq<char>) -> Seq<Seq<char>> {
    split_spec(name).drop_last()
}

/// The two names' paths nest: one is a prefix of the other, or they are equal.
pub open spec fn collide(a: Seq<char>, b: Seq<char>) -> bool {
    is_prefix(path_of(a), path_of(b)) || is_prefix(path_of(b), path_of(a))
}

/// `e` names a file of `names` that is malformed, or that collides with
/// another of them.
pub open spec fn reports(e: TreeError, names: Seq<Seq<char>>) -> bool {
    match e {
        TreeError::Malformed(n) => names.contains(n@) && !well_formed(n@),
        TreeError::Collision(n) => {
            &&& names.contains(n@)
            &&& well_formed(n@)
            &&& exists|m: Seq<char>| #[trigger] names.contains(m) && m != n@ && well_formed(m) && collide(m, n@)
        },
    }
}

/// Every name is well formed and no two of them collide.
pub open spec fn valid(names: Set<Seq<char>>) -> bool {
    &&& forall|n: Seq<char>| #[trigger] names.contains(n) ==> well_formed(n)
    &&& forall|n: Seq<char>, m: Seq<char>|
        #[trigger] names.contains(n) && #[trigger] names.contains(m) && n != m ==> !collide(n, m)
}

/// `t` is the tree of `names`: a branch at its root, the leaf of each name at
/// its path, and nothing that lies off those paths.
pub open spec fn spans(t: TreeEntry, names: Set<Seq<char>>) -> bool {
    &&& t is Branch
    &&& forall|n: Seq<char>| #[trigger] names.contains(n) ==> leaf_named(t, path_of(n), n)
    &&& forall|q: Seq<Seq<char>>| #[trigger] t.node_at(q) is Some ==> q.len() == 0 || exists|n: Seq<char>|
        #[trigger] names.contains(n) && is_prefix(q, path_of(n))
    &&& forall|q: Seq<Seq<char>>| #[trigger] leaf_at(t, q) ==> exists|n: Seq<char>|
        #[trigger] names.contains(n) && path_of(n) == q
}

/// Whether `name` is well formed; its path where it is.
fn path_segments(name: &String) -> (r: Option<Vec<String>>)
    ensures
        match r {
            Some(p) => well_formed(name@) && views(p@) == path_of(name@),
            None => !well_formed(name@),
        },
{
    let mut segs = split_segments(name.as_str());
    proof {
        lemma_split_nonempty(name@);
    }
    if segs.len() < 2 {
        return None;
    }
    let ghost all = segs@;
    let last = segs.pop().unwrap();
    proof {
        reveal_strlit("rs");
        assert(views(all).last() == last@);
        assert(views(segs@) =~= views(all).drop_last());
        assert("rs"@ =~= seq!['r', 's']);
    }
    if same_name(last.as_str(), "rs") {
        Some(segs)
    } else {
        None
    }
}

/// In the tree of `names`, the path of `n` is blocked exactly where `n`
/// collides with one of them.
proof fn lemma_blocked_iff(t: TreeEntry, names: Set<Seq<char>>, n: Seq<char>)
    requires
        spans(t, names),
        well_formed(n),
    ensures
        blocked(t, path_of(n)) <==> exists|m: Seq<char>| #[trigger] names.contains(m) && collide(m, n),
{
    let p = path_of(n);
    if t.node_at(p) is Some {
        let m = choose|m: Seq<char>| #[trigger] names.contains(m) && is_prefix(p, path_of(m));
        assert(collide(m, n));
    }
    if exists|k: int| 0 <= k < p.len() && #[trigger] leaf_at(t, p.take(k)) {
        let k = choose|k: int| 0 <= k < p.len() && #[trigger] leaf_at(t, p.take(k));
        let m = choose|m: Seq<char>| #[trigger] names.contains(m) && path_of(m) == p.take(k);
        assert(is_prefix(path_of(m), p));
        assert(collide(m, n));
    }
    if exists|m: Seq<char>| #[trigger] names.contains(m) && collide(m, n) {
        let m = choose|m: Seq<char>| #[trigger] names.contains(m) && collide(m, n);
        let pm = path_of(m);
        assert(leaf_named(t, pm, m));
        if is_prefix(p, pm) {
            lemma_prefix_closed(t, p, pm);
        } else {
            if pm.len() == p.len() {
                assert(p.take(pm.len() as int) =~= p);
            } else {
                assert(leaf_at(t, p.take(pm.len() as int)));
            }
        }
    }
}

/// Placing the leaf of `n` turns the tree of `names` into the tree of `names`
/// with `n`.
proof fn lemma_spans_insert(t0: TreeEntry, t1: TreeEntry, names: Set<Seq<char>>, n: Seq<char>)
    requires
        spans(t0, names),
        well_formed(n),
        t1 is Branch,
        leaf_named(t1, path_of(n), n),
        forall|k: int| 0 <= k < path_of(n).len() ==> #[trigger] branch_at(t1, path_of(n).take(k)),
        forall|q: Seq<Seq<char>>| !is_prefix(q, path_of(n)) ==> #[trigger] t1.node_at(q) == t0.node_at(q),
        forall|m: Seq<char>| #[trigger] names.contains(m) ==> !collide(m, n),
    ensures
        spans(t1, names.insert(n)),
{
    let p = path_of(n);
    let s1 = names.insert(n);
    assert forall|m: Seq<char>| #[trigger] s1.contains(m) implies leaf_named(t1, path_of(m), m) by {
        if m != n {
            assert(!collide(m, n));
            assert(t1.node_at(path_of(m)) == t0.node_at(path_of(m)));
        }
    }
    assert forall|q: Seq<Seq<char>>| #[trigger] t1.node_at(q) is Some implies q.len() == 0 || exists|m: Seq<char>|
        #[trigger] s1.contains(m) && is_prefix(q, path_of(m)) by {
        if is_prefix(q, p) {
            assert(s1.contains(n));
        } else {
            assert(t1.node_at(q) == t0.node_at(q));
            if q.len() > 0 {
                let m = choose|m: Seq<char>| #[trigger] names.contains(m) && is_prefix(q, path_of(m));
                assert(s1.contains(m));
            }
        }
    }
    assert forall|q: Seq<Seq<char>>| #[trigger] leaf_at(t1, q) implies exists|m: Seq<char>|
        #[trigger] s1.contains(m) && path_of(m) == q by {
        if is_prefix(q, p) {
            if q.len() == p.len() {
                assert(p.take(q.len() as int) =~= p);
                assert(s1.contains(n));
            } else {
                assert(branch_at(t1, p.take(q.len() as int)));
            }
        } else {
            assert(t1.node_at(q) == t0.node_at(q));
            assert(leaf_at(t0, q));
            let m = choose|m: Seq<char>| #[trigger] names.contains(m) && path_of(m) == q;
            assert(s1.contains(m));
        }
    }
}

/// Builds the namespace tree of `file_names`. Fails exactly where a name is
/// malformed or two names collide, naming one offending file.
pub fn build_tree(file_names: &Vec<String>) -> (r: Result<TreeEntry, TreeError>)
    ensures
        r is Ok <==> valid(views(file_names@).to_set()),
        match r {
            Ok(t) => spans(t, views(file_names@).to_set()) && sorted_tree(t),
            Err(e) => reports(e, views(file_names@)),
        },
{
    let sorted = sorted_names(file_names);
    let ghost all = views(sorted@).to_set();
    let mut tree = TreeEntry::Branch(Vec::new());
    let mut k: usize = 0;
    proof {
        assert(views(sorted@.take(0)).to_set() =~= Set::<Seq<char>>::empty());
        assert forall|q: Seq<Seq<char>>| #[trigger] tree.node_at(q) is Some implies q.len() == 0 by {
            if q.len() > 0 {
                crate::tree::lemma_unfold(tree, q);
                crate::tree::lemma_child_index_range(tree.children(), q[0]);
            }
        }
        assert forall|q: Seq<Seq<char>>| #[trigger] sorted_below(tree, q) by {
            if q.len() > 0 {
                crate::tree::lemma_unfold(tree, q);
                crate::tree::lemma_child_index_range(tree.children(), q[0]);
            } else {
                assert(crate::tree::names(tree.children()) =~= Seq::<Seq<char>>::empty());
            }
        }
        assert forall|q: Seq<Seq<char>>| !#[trigger] leaf_at(tree, q) by {
            if q.len() > 0 {
                crate::tree::lemma_unfold(tree, q);
                crate::tree::lemma_child_index_range(tree.children(), q[0]);
            }
        }
    }
    while k < sorted.len()
        invariant
            k <= sorted.len(),
            strictly_sorted(views(sorted@)),
            all == views(sorted@).to_set(),
            all == views(file_names@).to_set(),
            spans(tree, views(sorted@.take(k as int)).to_set()),
            sorted_tree(tree),
            valid(views(sorted@.take(k as int)).to_set()),
        decreases sorted.len() - k,
    {
        let name = &sorted[k];
        let ghost done = views(sorted@.take(k as int)).to_set();
        proof {
            assert(views(sorted@)[k as int] == name@);
            assert(all.contains(name@));
            assert(views(sorted@.take(k as int + 1)) =~= views(sorted@.take(k as int)).push(name@));
            views(sorted@.take(k as int)).lemma_push_to_set_commute(name@);
            assert forall|m: Seq<char>| #[trigger] done.contains(m) implies all.contains(m) && m != name@ by {
                let j = choose|j: int| 0 <= j < views(sorted@.take(k as int)).len() && views(sorted@.take(k as int))[j] == m;
                assert(views(sorted@)[j] == m);
                assert(crate::order::seq_lt(views(sorted@)[j], views(sorted@)[k as int]));
                lemma_lt_irreflexive(m);
            }
        }
        match path_segments(name) {
            None => {
                return Err(TreeError::Malformed(name.clone()));
            },
            Some(path) => {
                let ghost before = tree;
                proof {
                    lemma_blocked_iff(tree, done, name@);
                    assert(views(path@).subrange(0, path.len() as int) =~= views(path@));
                }
                if !place(&mut tree, &path, 0, name) {
                    proof {
                        let m = choose|m: Seq<char>| #[trigger] done.contains(m) && collide(m, name@);
                        assert(well_formed(m));
                        assert(views(file_names@).contains(m));
                    }
                    return Err(TreeError::Collision(name.clone()));
                }
                proof {
                    lemma_spans_insert(before, tree, done, name@);
                    let s1 = done.insert(name@);
                    assert forall|a: Seq<char>, b: Seq<char>|
                        #[trigger] s1.contains(a) && #[trigger] s1.contains(b) && a != b implies !collide(a, b) by {
                        if a == name@ {
                            assert(done.contains(b));
                        } else if b == name@ {
                            assert(done.contains(a));
                        }
                    }
                }
            },
        }
        k = k + 1;
    }
    proof {
        assert(sorted@.take(sorted.len() as int) =~= sorted@);
    }
    Ok(tree)
}

} // verus!
