//! The namespace tree: branches named by segment, leaves naming a file.
use vstd::prelude::*;
use crate::order::{lemma_lt_total, lemma_insert_sorted, name_lt, same_name, seq_lt, strictly_sorted};
use crate::segments::views;

verus! {

/// A position in the namespace tree.
#[derive(Debug)]
pub enum TreeEntry {
    /// A leaf: the full name of the file spliced in at this position.
    Node(String),
    /// A namespace: its children, each under its segment name, in the order
    /// they were added.
    Branch(Vec<(String, TreeEntry)>),
}

/// The index of the first child named `name`, or -1 where there is none.
pub open spec fn child_index(ch: Seq<(String, TreeEntry)>, name: Seq<char>) -> int {
    if exists|i: int| is_first_named(ch, name, i) {
        choose|i: int| is_first_named(ch, name, i)
    } else {
        -1
    }
}

/// `i` is the first child of `ch` named `name`.
pub open spec fn is_first_named(ch: Seq<(String, TreeEntry)>, name: Seq<char>, i: int) -> bool {
    &&& 0 <= i < ch.len()
    &&& ch[i].0@ == name
    &&& forall|j: int| 0 <= j < i ==> #[trigger] ch[j].0@ != name
}

/// The first child named `name` is the one `child_index` gives.
pub proof fn lemma_child_index(ch: Seq<(String, TreeEntry)>, name: Seq<char>, i: int)
    requires
        is_first_named(ch, name, i),
    ensures
        child_index(ch, name) == i,
{
    let k = choose|k: int| is_first_named(ch, name, k);
    if k < i {
        assert(ch[k].0@ != name);
    } else if k > i {
        assert(ch[i].0@ != name);
    }
}

/// Where no child is named `name`, `child_index` gives -1.
pub proof fn lemma_child_index_none(ch: Seq<(String, TreeEntry)>, name: Seq<char>)
    requires
        forall|j: int| 0 <= j < ch.len() ==> #[trigger] ch[j].0@ != name,
    ensures
        child_index(ch, name) == -1,
{
}

/// `child_index` gives the first child of that name, or -1 where none has it.
pub proof fn lemma_child_index_range(ch: Seq<(String, TreeEntry)>, name: Seq<char>)
    ensures
        -1 <= child_index(ch, name) < ch.len(),
        child_index(ch, name) >= 0 ==> is_first_named(ch, name, child_index(ch, name)),
        child_index(ch, name) < 0 ==> forall|j: int| 0 <= j < ch.len() ==> #[trigger] ch[j].0@ != name,
{
    if child_index(ch, name) < 0 {
        assert forall|j: int| 0 <= j < ch.len() implies #[trigger] ch[j].0@ != name by {
            if ch[j].0@ == name {
                lemma_first_match_exists(ch, name, j);
            }
        }
    }
}

/// Where some child is named `name`, there is a first one.
proof fn lemma_first_match_exists(ch: Seq<(String, TreeEntry)>, name: Seq<char>, j: int)
    requires
        0 <= j < ch.len(),
        ch[j].0@ == name,
    ensures
        exists|i: int| is_first_named(ch, name, i),
    decreases j,
{
    if forall|k: int| 0 <= k < j ==> #[trigger] ch[k].0@ != name {
        assert(is_first_named(ch, name, j));
    } else {
        assert(exists|k: int| 0 <= k < j && ch[k].0@ == name);
        let k = choose|k: int| 0 <= k < j && ch[k].0@ == name;
        lemma_first_match_exists(ch, name, k);
    }
}

impl TreeEntry {
    /// The children of a branch; none for a leaf.
    pub open spec fn children(self) -> Seq<(String, TreeEntry)> {
        match self {
            TreeEntry::Branch(ch) => ch@,
            TreeEntry::Node(_) => Seq::empty(),
        }
    }

    /// The entry reached from this one by following the segments of `p`, if
    /// any.
    pub open spec fn node_at(self, p: Seq<Seq<char>>) -> Option<TreeEntry>
        decreases p.len(),
    {
        if p.len() == 0 {
            Some(self)
        } else {
            match self {
                TreeEntry::Node(_) => None,
                TreeEntry::Branch(ch) => {
                    let i = child_index(ch@, p[0]);
                    if 0 <= i < ch@.len() {
                        ch@[i].1.node_at(p.drop_first())
                    } else {
                        None
                    }
                },
            }
        }
    }

    /// The child of this branch named `part`.
    pub fn get(&self, part: &str) -> (r: Option<&TreeEntry>)
        requires
            *self is Branch,
        ensures
            match r {
                Some(e) => {
                    let i = child_index(self.children(), part@);
                    &&& 0 <= i < self.children().len()
                    &&& *e == self.children()[i].1
                },
                None => child_index(self.children(), part@) == -1,
            },
    {
        match self {
            TreeEntry::Branch(ch) => match find_child(ch, part) {
                Some(i) => Some(&ch[i].1),
                None => None,
            },
            TreeEntry::Node(_) => None,
        }
    }

    /// The child of this branch named `part`, to be changed in place.
    pub fn get_mut(&mut self, part: &str) -> (r: Option<&mut TreeEntry>)
        requires
            *old(self) is Branch,
        ensures
            match r {
                Some(e) => {
                    let i = child_index(old(self).children(), part@);
                    &&& 0 <= i < old(self).children().len()
                    &&& *e == old(self).children()[i].1
                    &&& *final(self) is Branch
                    &&& final(self).children() == old(self).children().update(
                        i,
                        (old(self).children()[i].0, *final(e)),
                    )
                },
                None => {
                    &&& child_index(old(self).children(), part@) == -1
                    &&& *final(self) == *old(self)
                },
            },
    {
        match self {
            TreeEntry::Branch(ch) => match find_child(ch, part) {
                Some(i) => Some(&mut ch[i].1),
                None => None,
            },
            TreeEntry::Node(_) => None,
        }
    }

    /// Puts `node` in this branch under `part`: in place of the child of that
    /// name where there is one, else at its place in the order of names.
    pub fn insert(&mut self, part: String, node: TreeEntry)
        requires
            *old(self) is Branch,
        ensures
            *final(self) is Branch,
            ({
                let i = child_index(old(self).children(), part@);
                if i >= 0 {
                    final(self).children() == old(self).children().update(
                        i,
                        (old(self).children()[i].0, node),
                    )
                } else {
                    exists|p: int|
                        is_first_not_before(old(self).children(), part@, p) && final(self).children()
                            == old(self).children().insert(p, (part, node))
                }
            }),
    {
        match self {
            TreeEntry::Branch(ch) => match find_child(ch, part.as_str()) {
                Some(i) => {
                    ch[i].1 = node;
                },
                None => {
                    let ghost before = ch@;
                    let mut p: usize = 0;
                    while p < ch.len() && name_lt(ch[p].0.as_str(), part.as_str())
                        invariant
                            p <= ch.len(),
                            forall|j: int| 0 <= j < p ==> seq_lt(#[trigger] ch@[j].0@, part@),
                        decreases ch.len() - p,
                    {
                        p = p + 1;
                    }
                    proof {
                        if p < ch.len() {
                            assert(!seq_lt(ch@[p as int].0@, part@));
                        }
                    }
                    ch.insert(p, (part, node));
                    proof {
                        assert(is_first_not_before(before, part@, p as int));
                    }
                },
            },
            TreeEntry::Node(_) => {},
        }
    }

    /// Whether this entry is a branch.
    pub fn is_branch(&self) -> (r: bool)
        ensures
            r == (*self is Branch),
    {
        match self {
            TreeEntry::Branch(_) => true,
            TreeEntry::Node(_) => false,
        }
    }
}

/// Finds the first child named `name`.
fn find_child(ch: &Vec<(String, TreeEntry)>, name: &str) -> (r: Option<usize>)
    ensures
        match r {
            Some(i) => child_index(ch@, name@) == i as int,
            None => child_index(ch@, name@) == -1,
        },
{
    let mut i: usize = 0;
    while i < ch.len()
        invariant
            i <= ch.len(),
            forall|j: int| 0 <= j < i ==> #[trigger] ch@[j].0@ != name@,
        decreases ch.len() - i,
    {
        if same_name(ch[i].0.as_str(), name) {
            proof {
                lemma_child_index(ch@, name@, i as int);
            }
            return Some(i);
        }
        i = i + 1;
    }
    proof {
        lemma_child_index_none(ch@, name@);
    }
    None
}

/// `p` is where a child named `name` goes among `ch`: after every child
/// whose name comes before it, and before the rest.
pub open spec fn is_first_not_before(ch: Seq<(String, TreeEntry)>, name: Seq<char>, p: int) -> bool {
    &&& 0 <= p <= ch.len()
    &&& forall|j: int| 0 <= j < p ==> seq_lt(#[trigger] ch[j].0@, name)
    &&& p < ch.len() ==> !seq_lt(ch[p].0@, name)
}

/// The names of a run of children.
pub open spec fn names(ch: Seq<(String, TreeEntry)>) -> Seq<Seq<char>> {
    ch.map_values(|c: (String, TreeEntry)| c.0@)
}

/// Where a branch stands at `q` in `t`, its children come in the order of
/// their names.
pub open spec fn sorted_below(t: TreeEntry, q: Seq<Seq<char>>) -> bool {
    match t.node_at(q) {
        Some(TreeEntry::Branch(ch)) => strictly_sorted(names(ch@)),
        _ => true,
    }
}

/// Every branch of `t` keeps its children in the order of their names.
pub open spec fn sorted_tree(t: TreeEntry) -> bool {
    forall|q: Seq<Seq<char>>| #[trigger] sorted_below(t, q)
}

/// Putting a child with a new name in leaves every other name on the same
/// child.
proof fn lemma_insert_absent(a: Seq<(String, TreeEntry)>, p: int, x: (String, TreeEntry), name: Seq<char>)
    requires
        child_index(a, x.0@) == -1,
        0 <= p <= a.len(),
    ensures
        name != x.0@ ==> ({
            let i = child_index(a, name);
            let j = child_index(a.insert(p, x), name);
            &&& i < 0 ==> j < 0
            &&& i >= 0 ==> j >= 0 && a.insert(p, x)[j] == a[i]
        }),
        child_index(a.insert(p, x), x.0@) == p,
{
    lemma_child_index_range(a, name);
    lemma_child_index_range(a, x.0@);
    let b = a.insert(p, x);
    assert forall|j: int| 0 <= j < p implies #[trigger] b[j].0@ != x.0@ by {
        assert(b[j] == a[j]);
    }
    lemma_child_index(b, x.0@, p);
    if name != x.0@ {
        let i = child_index(a, name);
        if i >= 0 {
            let j = if i < p { i } else { i + 1 };
            assert(b[j] == a[i]);
            assert forall|k: int| 0 <= k < j implies #[trigger] b[k].0@ != name by {
                if k < p {
                    assert(b[k] == a[k]);
                    assert(a[k].0@ != name);
                } else if k > p {
                    assert(b[k] == a[k - 1]);
                    assert(a[k - 1].0@ != name);
                }
            }
            lemma_child_index(b, name, j);
        } else {
            assert forall|k: int| 0 <= k < b.len() implies #[trigger] b[k].0@ != name by {
                if k < p {
                    assert(b[k] == a[k]);
                    assert(a[k].0@ != name);
                } else if k > p {
                    assert(b[k] == a[k - 1]);
                    assert(a[k - 1].0@ != name);
                }
            }
            lemma_child_index_none(b, name);
        }
    }
}

/// Putting a child with a new name at its place keeps the names in order.
proof fn lemma_insert_keeps_sorted(a: Seq<(String, TreeEntry)>, p: int, x: (String, TreeEntry))
    requires
        strictly_sorted(names(a)),
        child_index(a, x.0@) == -1,
        is_first_not_before(a, x.0@, p),
    ensures
        strictly_sorted(names(a.insert(p, x))),
{
    lemma_child_index_range(a, x.0@);
    if p < a.len() {
        assert(names(a)[p] == a[p].0@);
        lemma_lt_total(a[p].0@, x.0@);
    }
    assert forall|i: int| 0 <= i < p implies seq_lt(#[trigger] names(a)[i], x.0@) by {
        assert(names(a)[i] == a[i].0@);
    }
    lemma_insert_sorted(names(a), p, x.0@);
    assert(names(a.insert(p, x)) =~= names(a).insert(p, x.0@));
}

/// `a` is a prefix of `b`, possibly all of it.
pub open spec fn is_prefix(a: Seq<Seq<char>>, b: Seq<Seq<char>>) -> bool {
    a.len() <= b.len() && b.take(a.len() as int) == a
}

/// A leaf stands at `q` in `t`.
pub open spec fn leaf_at(t: TreeEntry, q: Seq<Seq<char>>) -> bool {
    t.node_at(q) matches Some(TreeEntry::Node(_))
}

/// A branch stands at `q` in `t`.
pub open spec fn branch_at(t: TreeEntry, q: Seq<Seq<char>>) -> bool {
    t.node_at(q) matches Some(TreeEntry::Branch(_))
}

/// The leaf at `q` in `t` names `file`.
pub open spec fn leaf_named(t: TreeEntry, q: Seq<Seq<char>>, file: Seq<char>) -> bool {
    match t.node_at(q) {
        Some(TreeEntry::Node(f)) => f@ == file,
        _ => false,
    }
}

/// A leaf cannot go at `p` in `t`: something already stands there, or a leaf
/// stands at a proper prefix of `p`.
pub open spec fn blocked(t: TreeEntry, p: Seq<Seq<char>>) -> bool {
    ||| t.node_at(p) is Some
    ||| exists|k: int| 0 <= k < p.len() && #[trigger] leaf_at(t, p.take(k))
}

/// Runs of children with the same names, in the same order, give every name
/// the same index.
proof fn lemma_same_names(a: Seq<(String, TreeEntry)>, b: Seq<(String, TreeEntry)>, name: Seq<char>)
    requires
        a.len() == b.len(),
        forall|j: int| 0 <= j < a.len() ==> #[trigger] a[j].0@ == b[j].0@,
    ensures
        child_index(a, name) == child_index(b, name),
{
    lemma_child_index_range(a, name);
    lemma_child_index_range(b, name);
    let i = child_index(a, name);
    if i >= 0 {
        assert forall|j: int| 0 <= j < i implies #[trigger] b[j].0@ != name by {
            assert(a[j].0@ != name);
        }
        lemma_child_index(b, name, i);
    } else {
        assert forall|j: int| 0 <= j < b.len() implies #[trigger] b[j].0@ != name by {
            assert(a[j].0@ != name);
        }
        lemma_child_index_none(b, name);
    }
}

/// One step down from a branch: the child named by the first segment.
pub proof fn lemma_unfold(t: TreeEntry, q: Seq<Seq<char>>)
    requires
        t is Branch,
        q.len() > 0,
    ensures
        ({
            let i = child_index(t.children(), q[0]);
            t.node_at(q) == if i >= 0 {
                t.children()[i].1.node_at(q.drop_first())
            } else {
                None
            }
        }),
{
    lemma_child_index_range(t.children(), q[0]);
}

/// Where something stands at `q`, something stands at every prefix of `q`.
pub proof fn lemma_prefix_closed(t: TreeEntry, a: Seq<Seq<char>>, q: Seq<Seq<char>>)
    requires
        t.node_at(q) is Some,
        is_prefix(a, q),
    ensures
        t.node_at(a) is Some,
    decreases a.len(),
{
    if a.len() > 0 {
        assert(a[0] == q.take(a.len() as int)[0]);
        match t {
            TreeEntry::Node(_) => {},
            TreeEntry::Branch(_) => {
                lemma_unfold(t, q);
                lemma_unfold(t, a);
                let i = child_index(t.children(), q[0]);
                assert(q.drop_first().take(a.len() - 1) =~= a.drop_first()) by {
                    assert forall|j: int| 0 <= j < a.len() - 1 implies q.drop_first().take(a.len() - 1)[j] == a.drop_first()[j] by {
                        assert(q.take(a.len() as int)[j + 1] == a[j + 1]);
                    }
                }
                lemma_prefix_closed(t.children()[i].1, a.drop_first(), q.drop_first());
            },
        }
    }
}

/// Going down one segment of `p`: into the child `c1` that stands under
/// `p[0]`, or into a fresh empty branch where there was none.
proof fn lemma_descend(t: TreeEntry, c1: TreeEntry, fresh: bool, p: Seq<Seq<char>>)
    requires
        t is Branch,
        p.len() > 1,
        c1 is Branch,
        fresh ==> child_index(t.children(), p[0]) == -1 && c1.children().len() == 0,
        !fresh ==> child_index(t.children(), p[0]) >= 0 && t.children()[child_index(
            t.children(),
            p[0],
        )].1 == c1,
    ensures
        blocked(t, p) == blocked(c1, p.drop_first()),
{
    let rest = p.drop_first();
    lemma_unfold(t, p);
    assert(p.take(0) =~= Seq::<Seq<char>>::empty());
    assert(rest.take(0) =~= Seq::<Seq<char>>::empty());
    if fresh {
        lemma_child_index_range(c1.children(), rest[0]);
        assert forall|k: int| 0 <= k < p.len() implies !#[trigger] leaf_at(t, p.take(k)) by {
            if k > 0 {
                assert(p.take(k)[0] == p[0]);
                lemma_unfold(t, p.take(k));
            }
        }
        assert forall|k: int| 0 <= k < rest.len() implies !#[trigger] leaf_at(c1, rest.take(k)) by {
            if k > 0 {
                assert(rest.take(k)[0] == rest[0]);
                lemma_unfold(c1, rest.take(k));
            }
        }
    } else {
        if exists|k: int| 0 <= k < p.len() && #[trigger] leaf_at(t, p.take(k)) {
            let k = choose|k: int| 0 <= k < p.len() && #[trigger] leaf_at(t, p.take(k));
            assert(k > 0);
            assert(p.take(k)[0] == p[0]);
            assert(p.take(k).drop_first() =~= rest.take(k - 1));
            lemma_unfold(t, p.take(k));
            assert(leaf_at(c1, rest.take(k - 1)));
        }
        if exists|k: int| 0 <= k < rest.len() && #[trigger] leaf_at(c1, rest.take(k)) {
            let k = choose|k: int| 0 <= k < rest.len() && #[trigger] leaf_at(c1, rest.take(k));
            assert(p.take(k + 1)[0] == p[0]);
            assert(p.take(k + 1).drop_first() =~= rest.take(k));
            lemma_unfold(t, p.take(k + 1));
            assert(leaf_at(t, p.take(k + 1)));
        }
    }
}

/// Puts a leaf for `file` at the segments `path[i..]` below `t`, making the
/// branches on the way where they are missing. Fails, and then `t` is of no
/// further use, exactly where that position is blocked.
pub(crate) fn place(t: &mut TreeEntry, path: &Vec<String>, i: usize, file: &String) -> (r: bool)
    requires
        *old(t) is Branch,
        sorted_tree(*old(t)),
        i < path.len(),
    ensures
        ({
            let p = views(path@).subrange(i as int, path.len() as int);
            &&& r == !blocked(*old(t), p)
            &&& r ==> {
                &&& *final(t) is Branch
                &&& sorted_tree(*final(t))
                &&& leaf_named(*final(t), p, file@)
                &&& forall|k: int| 0 <= k < p.len() ==> #[trigger] branch_at(*final(t), p.take(k))
                &&& forall|q: Seq<Seq<char>>| !is_prefix(q, p) ==> #[trigger] final(t).node_at(q) == old(t).node_at(q)
            }
        }),
    decreases path.len() - i,
{
    let ghost p = views(path@).subrange(i as int, path.len() as int);
    let ghost ch0 = old(t).children();
    let seg = &path[i];
    proof {
        lemma_child_index_range(ch0, seg@);
        assert(p[0] == seg@);
    }
    if i + 1 == path.len() {
        if t.get(seg.as_str()).is_some() {
            proof {
                assert(p.drop_first() =~= Seq::<Seq<char>>::empty());
                lemma_unfold(*old(t), p);
            }
            return false;
        }
        let ghost before = *t;
        t.insert(seg.clone(), TreeEntry::Node(file.clone()));
        proof {
            let ch1 = t.children();
            assert(exists|pos: int| is_first_not_before(ch0, seg@, pos) && ch1 == ch0.insert(pos, ch1[pos]) && ch1[pos].0@ == seg@);
            let pos = choose|pos: int| is_first_not_before(ch0, seg@, pos) && ch1 == ch0.insert(pos, ch1[pos]) && ch1[pos].0@ == seg@;
            assert(p =~= seq![seg@]);
            assert(p.take(0) =~= Seq::<Seq<char>>::empty());
            assert forall|k: int| 0 <= k < p.len() implies !#[trigger] leaf_at(before, p.take(k)) by {
                assert(k == 0);
            }
            lemma_insert_absent(ch0, pos, ch1[pos], seg@);
            assert(p.drop_first() =~= Seq::<Seq<char>>::empty());
            lemma_unfold(*t, p);
            lemma_unfold(before, p);
            assert forall|q: Seq<Seq<char>>| !is_prefix(q, p) implies #[trigger] t.node_at(q) == before.node_at(q) by {
                if q.len() > 0 {
                    lemma_unfold(*t, q);
                    lemma_unfold(before, q);
                    lemma_insert_absent(ch0, pos, ch1[pos], q[0]);
                    lemma_child_index_range(ch0, q[0]);
                    lemma_child_index_range(ch1, q[0]);
                    if q[0] == seg@ {
                        if q.len() == 1 {
                            assert(q =~= p);
                            assert(p.take(1) =~= p);
                        }
                    }
                } else {
                    assert(p.take(0) =~= q);
                }
            }
            assert(sorted_below(before, Seq::<Seq<char>>::empty()));
            lemma_insert_keeps_sorted(ch0, pos, ch1[pos]);
            assert forall|q: Seq<Seq<char>>| #[trigger] sorted_below(*t, q) by {
                if q.len() > 0 {
                    lemma_unfold(*t, q);
                    lemma_child_index_range(ch1, q[0]);
                    if q[0] != seg@ {
                        assert(!is_prefix(q, p));
                        assert(sorted_below(before, q));
                    } else if q.len() > 1 {
                        assert(q.drop_first().len() > 0);
                    }
                }
            }
        }
        true
    } else {
        let ghost rest = p.drop_first();
        let fresh = t.get(seg.as_str()).is_none();
        if fresh {
            t.insert(seg.clone(), TreeEntry::Branch(Vec::new()));
        }
        let ghost ch1 = t.children();
        proof {
            assert(rest =~= views(path@).subrange(i as int + 1, path.len() as int));
            if fresh {
                assert(exists|pos: int| is_first_not_before(ch0, seg@, pos) && ch1 == ch0.insert(pos, ch1[pos]) && ch1[pos].0@ == seg@);
            }
        }
        let ghost pos = choose|pos: int| is_first_not_before(ch0, seg@, pos) && ch1 == ch0.insert(pos, ch1[pos]) && ch1[pos].0@ == seg@;
        proof {
            if fresh {
                lemma_insert_absent(ch0, pos, ch1[pos], seg@);
            }
            lemma_child_index_range(ch1, seg@);
        }
        let ghost idx = child_index(ch1, seg@);
        let ghost c1 = ch1[idx].1;
        let ghost c2: TreeEntry;
        let r: bool;
        match t.get_mut(seg.as_str()) {
            Some(child) => {
                if !child.is_branch() {
                    proof {
                        assert(p.take(1) =~= seq![seg@]);
                        assert(p.take(1).drop_first() =~= Seq::<Seq<char>>::empty());
                        lemma_unfold(*old(t), p.take(1));
                        assert(leaf_at(*old(t), p.take(1)));
                    }
                    return false;
                }
                proof {
                    assert forall|rq: Seq<Seq<char>>| #[trigger] sorted_below(c1, rq) by {
                        if fresh {
                            if rq.len() > 0 {
                                lemma_unfold(c1, rq);
                                lemma_child_index_range(c1.children(), rq[0]);
                            } else {
                                assert(names(c1.children()) =~= Seq::<Seq<char>>::empty());
                            }
                        } else {
                            let q = seq![seg@] + rq;
                            assert(q[0] == seg@);
                            assert(q.drop_first() =~= rq);
                            lemma_unfold(*old(t), q);
                            assert(sorted_below(*old(t), q));
                        }
                    }
                }
                r = place(child, path, i + 1, file);
                proof {
                    c2 = *child;
                }
            },
            None => {
                return false;
            },
        }
        proof {
            let ch2 = t.children();
            assert(ch2 == ch1.update(idx, (ch1[idx].0, c2)));
            assert forall|j: int| 0 <= j < ch2.len() implies #[trigger] ch2[j].0@ == ch1[j].0@ by {
            }
            lemma_descend(*old(t), c1, fresh, p);
            lemma_unfold(*t, p);
            lemma_same_names(ch2, ch1, seg@);
            assert(p.take(0) =~= Seq::<Seq<char>>::empty());
            if r {
                assert forall|k: int| 0 <= k < p.len() implies #[trigger] branch_at(*t, p.take(k)) by {
                    if k > 0 {
                        assert(p.take(k)[0] == seg@);
                        assert(p.take(k).drop_first() =~= rest.take(k - 1));
                        lemma_unfold(*t, p.take(k));
                        assert(branch_at(c2, rest.take(k - 1)));
                    }
                }
                assert forall|q: Seq<Seq<char>>| !is_prefix(q, p) implies #[trigger] t.node_at(q) == old(t).node_at(q) by {
                    if q.len() == 0 {
                        assert(p.take(0) =~= q);
                    } else {
                        lemma_unfold(*t, q);
                        lemma_unfold(*old(t), q);
                        lemma_same_names(ch2, ch1, q[0]);
                        lemma_child_index_range(ch0, q[0]);
                        lemma_child_index_range(ch1, q[0]);
                        if fresh {
                            lemma_insert_absent(ch0, pos, ch1[pos], q[0]);
                        }
                        if q[0] == seg@ {
                            let qd = q.drop_first();
                            if is_prefix(qd, rest) {
                                assert forall|j: int| 0 <= j < q.len() implies p.take(q.len() as int)[j] == q[j] by {
                                    if j > 0 {
                                        assert(rest.take(qd.len() as int)[j - 1] == qd[j - 1]);
                                    }
                                }
                                assert(p.take(q.len() as int) =~= q);
                            }
                            assert(t.node_at(q) == c2.node_at(qd));
                            assert(c1.node_at(qd) == old(t).node_at(q)) by {
                                if fresh {
                                    if qd.len() == 0 {
                                        assert(p.take(1) =~= q);
                                    }
                                    lemma_child_index_range(c1.children(), qd[0]);
                                }
                            }
                        }
                    }
                }
                assert(names(ch2) =~= names(ch1));
                assert(sorted_below(*old(t), Seq::<Seq<char>>::empty()));
                if fresh {
                    lemma_insert_keeps_sorted(ch0, pos, ch1[pos]);
                }
                assert forall|q: Seq<Seq<char>>| #[trigger] sorted_below(*t, q) by {
                    if q.len() > 0 {
                        lemma_unfold(*t, q);
                        lemma_same_names(ch2, ch1, q[0]);
                        lemma_child_index_range(ch1, q[0]);
                        if q[0] != seg@ {
                            assert(!is_prefix(q, p));
                            assert(sorted_below(*old(t), q));
                        } else {
                            assert(sorted_below(c2, q.drop_first()));
                        }
                    }
                }
            }
        }
        r
    }
}

} // verus!
