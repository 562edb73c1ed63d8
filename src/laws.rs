//! What holds of every tree the builder produces.
use vstd::prelude::*;
use crate::builder::{collide, path_of, spans, valid, well_formed};
use crate::emit::{emit_children, emit_spec, holds, is_text_of, leaf_text, mod_open, nests, reaches};
use crate::order::{lemma_lt_irreflexive, lemma_sorted_unique};
use crate::tree::{
    TreeEntry, branch_at, child_index, is_prefix, leaf_at, leaf_named, lemma_child_index,
    lemma_child_index_range, lemma_prefix_closed, lemma_unfold, names, sorted_below, sorted_tree,
};

verus! {

/// What stands at `q` in `t`: nothing, a branch, or the leaf of a file.
pub open spec fn shape_at(t: TreeEntry, q: Seq<Seq<char>>) -> Option<Option<Seq<char>>> {
    match t.node_at(q) {
        None => None,
        Some(TreeEntry::Branch(_)) => Some(None),
        Some(TreeEntry::Node(f)) => Some(Some(f@)),
    }
}

/// Every file of a valid set is reached by following its own segments: each
/// proper prefix of its path is a namespace, and at the path itself stands
/// the one leaf that names it; no leaf stands anywhere else.
pub proof fn law_each_file_at_its_path(names: Set<Seq<char>>, t: TreeEntry)
    requires
        valid(names),
        spans(t, names),
    ensures
        forall|n: Seq<char>| #[trigger] names.contains(n) ==> leaf_named(t, path_of(n), n),
        forall|n: Seq<char>, k: int|
            names.contains(n) && 0 <= k < path_of(n).len() ==> #[trigger] branch_at(t, path_of(n).take(k)),
        forall|q: Seq<Seq<char>>| #[trigger] leaf_at(t, q) ==> exists|n: Seq<char>| #[trigger] names.contains(n) && path_of(n) == q,
{
    assert forall|n: Seq<char>, k: int|
        names.contains(n) && 0 <= k < path_of(n).len() implies #[trigger] branch_at(t, path_of(n).take(k)) by {
        let p = path_of(n);
        assert(leaf_named(t, p, n));
        lemma_prefix_closed(t, p.take(k), p);
        if leaf_at(t, p.take(k)) {
            let m = choose|m: Seq<char>| #[trigger] names.contains(m) && path_of(m) == p.take(k);
            assert(is_prefix(path_of(m), p));
            assert(collide(m, n));
        }
    }
}

/// Two trees of the same valid set of names have the same shape: the same
/// namespaces, and the same leaf at each path, whatever order the names came
/// in.
pub proof fn law_same_names_same_shape(names: Set<Seq<char>>, t1: TreeEntry, t2: TreeEntry)
    requires
        valid(names),
        spans(t1, names),
        spans(t2, names),
    ensures
        forall|q: Seq<Seq<char>>| #[trigger] shape_at(t1, q) == shape_at(t2, q),
{
    law_each_file_at_its_path(names, t1);
    law_each_file_at_its_path(names, t2);
    assert forall|q: Seq<Seq<char>>| #[trigger] shape_at(t1, q) == shape_at(t2, q) by {
        lemma_shape_agrees(names, t1, t2, q);
        lemma_shape_agrees(names, t2, t1, q);
    }
}

/// What stands at `q` in one tree of `names` stands there in the other too.
proof fn lemma_shape_agrees(names: Set<Seq<char>>, a: TreeEntry, b: TreeEntry, q: Seq<Seq<char>>)
    requires
        valid(names),
        spans(a, names),
        spans(b, names),
        forall|n: Seq<char>, k: int|
            names.contains(n) && 0 <= k < path_of(n).len() ==> #[trigger] branch_at(b, path_of(n).take(k)),
    ensures
        a.node_at(q) is Some ==> shape_at(a, q) == shape_at(b, q),
{
    if a.node_at(q) is Some {
        if q.len() == 0 {
        } else if leaf_at(a, q) {
            let n = choose|n: Seq<char>| #[trigger] names.contains(n) && path_of(n) == q;
            assert(leaf_named(a, q, n));
            assert(leaf_named(b, q, n));
        } else {
            let n = choose|n: Seq<char>| #[trigger] names.contains(n) && is_prefix(q, path_of(n));
            if q.len() == path_of(n).len() {
                assert(path_of(n).take(q.len() as int) =~= path_of(n));
                assert(leaf_named(a, q, n));
            } else {
                assert(branch_at(b, path_of(n).take(q.len() as int)));
            }
        }
    }
}

/// Where the path of one well-formed name is a proper prefix of another's,
/// the two cannot be built together.
pub proof fn law_prefix_collision(a: Seq<char>, b: Seq<char>)
    requires
        well_formed(a),
        well_formed(b),
        is_prefix(path_of(a), path_of(b)),
        path_of(a).len() < path_of(b).len(),
    ensures
        !valid(set![a, b]),
{
    assert(set![a, b].contains(a));
    assert(set![a, b].contains(b));
    assert(a != b);
    assert(collide(a, b));
}

/// Runs of children with the same names and texts give the same text.
proof fn lemma_children_text(
    a: Seq<(String, TreeEntry)>,
    b: Seq<(String, TreeEntry)>,
    splice: Seq<char>,
    dir: Seq<char>,
)
    requires
        a.len() == b.len(),
        forall|i: int| 0 <= i < a.len() ==> #[trigger] a[i].0@ == b[i].0@,
        forall|i: int| 0 <= i < a.len() ==> #[trigger] emit_spec(a[i].1, splice, dir) == emit_spec(b[i].1, splice, dir),
    ensures
        emit_children(a, splice, dir) == emit_children(b, splice, dir),
    decreases a.len(),
{
    if a.len() > 0 {
        let (a0, b0) = (a.drop_last(), b.drop_last());
        assert forall|i: int| 0 <= i < a0.len() implies #[trigger] a0[i].0@ == b0[i].0@ by {
            assert(a[i].0@ == b[i].0@);
        }
        assert forall|i: int| 0 <= i < a0.len() implies #[trigger] emit_spec(a0[i].1, splice, dir) == emit_spec(b0[i].1, splice, dir) by {
            assert(emit_spec(a[i].1, splice, dir) == emit_spec(b[i].1, splice, dir));
        }
        lemma_children_text(a0, b0, splice, dir);
        assert(a.last().0@ == b.last().0@);
        assert(emit_spec(a.last().1, splice, dir) == emit_spec(b.last().1, splice, dir));
    }
}

/// Below the child named `c` lies what lies below `c` in its parent.
proof fn lemma_below_child(t: TreeEntry, c: Seq<char>, i: int, r: Seq<Seq<char>>)
    requires
        t is Branch,
        child_index(t.children(), c) == i,
        0 <= i,
    ensures
        t.node_at(seq![c] + r) == t.children()[i].1.node_at(r),
{
    let q = seq![c] + r;
    assert(q[0] == c);
    assert(q.drop_first() =~= r);
    lemma_unfold(t, q);
}

/// Two trees whose branches keep their children in the order of their names,
/// and which have the same shape, are written out as the same text.
proof fn lemma_same_shape_same_text(t1: TreeEntry, t2: TreeEntry, splice: Seq<char>, dir: Seq<char>)
    requires
        sorted_tree(t1),
        sorted_tree(t2),
        forall|q: Seq<Seq<char>>| #[trigger] shape_at(t1, q) == shape_at(t2, q),
    ensures
        emit_spec(t1, splice, dir) == emit_spec(t2, splice, dir),
    decreases t1,
{
    let top = Seq::<Seq<char>>::empty();
    assert(shape_at(t1, top) == shape_at(t2, top));
    assert(sorted_below(t1, top));
    assert(sorted_below(t2, top));
    match t1 {
        TreeEntry::Node(_) => {},
        TreeEntry::Branch(v1) => {
            let ch1 = t1.children();
            let ch2 = t2.children();
            let (n1, n2) = (names(ch1), names(ch2));
            assert forall|c: Seq<char>| n1.to_set().contains(c) implies n2.to_set().contains(c) by {
                let j = choose|j: int| 0 <= j < n1.len() && n1[j] == c;
                assert(ch1[j].0@ == c);
                lemma_child_index_range(ch1, c);
                lemma_child_index_range(ch2, c);
                lemma_unfold(t1, seq![c]);
                lemma_unfold(t2, seq![c]);
                assert(shape_at(t1, seq![c]) == shape_at(t2, seq![c]));
                let k = child_index(ch2, c);
                assert(n2[k] == c);
            }
            assert forall|c: Seq<char>| n2.to_set().contains(c) implies n1.to_set().contains(c) by {
                let j = choose|j: int| 0 <= j < n2.len() && n2[j] == c;
                assert(ch2[j].0@ == c);
                lemma_child_index_range(ch1, c);
                lemma_child_index_range(ch2, c);
                lemma_unfold(t1, seq![c]);
                lemma_unfold(t2, seq![c]);
                assert(shape_at(t1, seq![c]) == shape_at(t2, seq![c]));
                let k = child_index(ch1, c);
                assert(n1[k] == c);
            }
            assert(n1.to_set() =~= n2.to_set());
            lemma_sorted_unique(n1, n2);
            assert(ch1.len() == n1.len());
            assert forall|i: int| 0 <= i < ch1.len() implies #[trigger] ch1[i].0@ == ch2[i].0@ by {
                assert(n1[i] == n2[i]);
            }
            assert forall|i: int| 0 <= i < ch1.len() implies #[trigger] emit_spec(ch1[i].1, splice, dir) == emit_spec(ch2[i].1, splice, dir) by {
                let c = ch1[i].0@;
                assert(n1[i] == c && n2[i] == c);
                assert forall|j: int| 0 <= j < i implies #[trigger] ch1[j].0@ != c by {
                    assert(n1[j] == ch1[j].0@);
                    lemma_lt_irreflexive(c);
                }
                assert forall|j: int| 0 <= j < i implies #[trigger] ch2[j].0@ != c by {
                    assert(n2[j] == ch2[j].0@);
                    lemma_lt_irreflexive(c);
                }
                lemma_child_index(ch1, c, i);
                lemma_child_index(ch2, c, i);
                let (c1, c2) = (ch1[i].1, ch2[i].1);
                assert forall|r: Seq<Seq<char>>| #[trigger] shape_at(c1, r) == shape_at(c2, r) by {
                    lemma_below_child(t1, c, i, r);
                    lemma_below_child(t2, c, i, r);
                    assert(shape_at(t1, seq![c] + r) == shape_at(t2, seq![c] + r));
                }
                assert forall|r: Seq<Seq<char>>| #[trigger] sorted_below(c1, r) by {
                    lemma_below_child(t1, c, i, r);
                    assert(sorted_below(t1, seq![c] + r));
                }
                assert forall|r: Seq<Seq<char>>| #[trigger] sorted_below(c2, r) by {
                    lemma_below_child(t2, c, i, r);
                    assert(sorted_below(t2, seq![c] + r));
                }
                assert(decreases_to!(t1 => t1->Branch_0));
                assert(decreases_to!(v1 => v1@[i]));
                assert(decreases_to!(v1@[i] => v1@[i].1));
                lemma_same_shape_same_text(c1, c2, splice, dir);
            }
            lemma_children_text(ch1, ch2, splice, dir);
        },
    }
}

/// Two trees of the same valid set of names, each with its children in the
/// order of their names, are written out as the same text.
pub proof fn law_same_names_same_text(
    names_set: Set<Seq<char>>,
    t1: TreeEntry,
    t2: TreeEntry,
    splice: Seq<char>,
    dir: Seq<char>,
)
    requires
        valid(names_set),
        spans(t1, names_set),
        spans(t2, names_set),
        sorted_tree(t1),
        sorted_tree(t2),
    ensures
        emit_spec(t1, splice, dir) == emit_spec(t2, splice, dir),
{
    law_same_names_same_shape(names_set, t1, t2);
    lemma_same_shape_same_text(t1, t2, splice, dir);
}

/// The text for a list of file names depends on the set of names alone: two
/// lists that hold the same names, in any order and with any repeats, give
/// the same text, byte for byte.
pub proof fn law_text_depends_on_set_only(
    names1: Seq<Seq<char>>,
    names2: Seq<Seq<char>>,
    text1: Seq<char>,
    text2: Seq<char>,
    splice: Seq<char>,
    dir: Seq<char>,
)
    requires
        names1.to_set() == names2.to_set(),
        valid(names1.to_set()),
        is_text_of(text1, names1.to_set(), splice, dir),
        is_text_of(text2, names2.to_set(), splice, dir),
    ensures
        text1 == text2,
{
    let t1 = choose|t: TreeEntry| spans(t, names1.to_set()) && sorted_tree(t) && text1 == #[trigger] emit_spec(t, splice, dir);
    let t2 = choose|t: TreeEntry| spans(t, names2.to_set()) && sorted_tree(t) && text2 == #[trigger] emit_spec(t, splice, dir);
    law_same_names_same_text(names1.to_set(), t1, t2, splice, dir);
}

/// The text of a run of children holds the block of each child.
proof fn lemma_children_hold(ch: Seq<(String, TreeEntry)>, i: int, splice: Seq<char>, dir: Seq<char>)
    requires
        0 <= i < ch.len(),
    ensures
        holds(emit_children(ch, splice, dir), mod_open(ch[i].0@) + emit_spec(ch[i].1, splice, dir) + seq!['}']),
    decreases ch.len(),
{
    let text = emit_children(ch, splice, dir);
    let front = emit_children(ch.drop_last(), splice, dir);
    let last = mod_open(ch.last().0@) + emit_spec(ch.last().1, splice, dir) + seq!['}'];
    assert(text =~= front + last);
    if i == ch.len() - 1 {
        assert(text =~= front + last + Seq::<char>::empty());
    } else {
        lemma_children_hold(ch.drop_last(), i, splice, dir);
        let part = mod_open(ch[i].0@) + emit_spec(ch[i].1, splice, dir) + seq!['}'];
        assert(ch.drop_last()[i] == ch[i]);
        let (a, b) = choose|a: Seq<char>, b: Seq<char>| front == a + part + b;
        assert(text =~= a + part + (b + last));
    }
}

/// The chain of blocks that leads from the text of `t` to the leaf at `q`.
proof fn lemma_reaches(t: TreeEntry, q: Seq<Seq<char>>, f: Seq<char>, splice: Seq<char>, dir: Seq<char>) -> (chain: Seq<Seq<char>>)
    requires
        leaf_named(t, q, f),
    ensures
        nests(chain, q),
        chain[0] == emit_spec(t, splice, dir),
        chain.last() == leaf_text(splice, dir, f),
    decreases q.len(),
{
    if q.len() == 0 {
        assert(t.node_at(q) == Some(t));
        seq![emit_spec(t, splice, dir)]
    } else {
        match t {
            TreeEntry::Node(_) => {
                assert(t.node_at(q) is None);
                seq![emit_spec(t, splice, dir)]
            },
            TreeEntry::Branch(_) => {
                lemma_unfold(t, q);
                let ch = t.children();
                let i = child_index(ch, q[0]);
                lemma_child_index_range(ch, q[0]);
                let u = ch[i].1;
                let below = lemma_reaches(u, q.drop_first(), f, splice, dir);
                lemma_children_hold(ch, i, splice, dir);
                let chain = seq![emit_spec(t, splice, dir)] + below;
                assert(emit_spec(t, splice, dir) == emit_children(ch, splice, dir));
                assert forall|k: int| 0 <= k < q.len() implies #[trigger] holds(
                    chain[k],
                    mod_open(q[k]) + chain[k + 1] + seq!['}'],
                ) by {
                    if k > 0 {
                        assert(chain[k] == below[k - 1]);
                        assert(chain[k + 1] == below[k]);
                        assert(q[k] == q.drop_first()[k - 1]);
                        assert(holds(below[k - 1], mod_open(q.drop_first()[k - 1]) + below[k] + seq!['}']));
                    }
                }
                chain
            },
        }
    }
}

/// In the text for a valid set of names, the directive of each file is
/// reached by following its own segments: each opens a namespace block
/// inside the one before, and the innermost holds that directive alone.
pub proof fn law_each_file_reached_in_text(
    names_set: Set<Seq<char>>,
    text: Seq<char>,
    splice: Seq<char>,
    dir: Seq<char>,
)
    requires
        valid(names_set),
        is_text_of(text, names_set, splice, dir),
    ensures
        forall|n: Seq<char>| #[trigger] names_set.contains(n) ==> reaches(text, path_of(n), leaf_text(splice, dir, n)),
{
    let t = choose|t: TreeEntry| spans(t, names_set) && sorted_tree(t) && text == #[trigger] emit_spec(t, splice, dir);
    assert forall|n: Seq<char>| #[trigger] names_set.contains(n) implies reaches(text, path_of(n), leaf_text(splice, dir, n)) by {
        let chain = lemma_reaches(t, path_of(n), n, splice, dir);
        assert(nests(chain, path_of(n)));
    }
}

} // verus!
