//! A strict lexicographic order on names, and sorting a list of names into
//! it with repeats removed.
use vstd::prelude::*;
use vstd::string::*;
use crate::segments::views;

verus! {

/// `a` comes strictly before `b`: compared character by character by code
/// point, a proper prefix first.
pub open spec fn seq_lt(a: Seq<char>, b: Seq<char>) -> bool
    decreases a.len(),
{
    if a.len() == 0 {
        b.len() > 0
    } else if b.len() == 0 {
        false
    } else if (a[0] as int) < (b[0] as int) {
        true
    } else if a[0] == b[0] {
        seq_lt(a.drop_first(), b.drop_first())
    } else {
        false
    }
}

/// Every earlier element comes strictly before every later one.
pub open spec fn strictly_sorted(s: Seq<Seq<char>>) -> bool {
    forall|i: int, j: int| 0 <= i < j < s.len() ==> #[trigger] seq_lt(s[i], s[j])
}

/// No name comes before itself.
pub proof fn lemma_lt_irreflexive(a: Seq<char>)
    ensures
        !seq_lt(a, a),
    decreases a.len(),
{
    if a.len() > 0 {
        lemma_lt_irreflexive(a.drop_first());
    }
}

/// Two names never each come before the other.
pub proof fn lemma_lt_asymmetric(a: Seq<char>, b: Seq<char>)
    ensures
        !(seq_lt(a, b) && seq_lt(b, a)),
    decreases a.len(),
{
    if a.len() > 0 && b.len() > 0 && a[0] == b[0] {
        lemma_lt_asymmetric(a.drop_first(), b.drop_first());
    }
}

/// The order is transitive.
pub proof fn lemma_lt_transitive(a: Seq<char>, b: Seq<char>, c: Seq<char>)
    requires
        seq_lt(a, b),
        seq_lt(b, c),
    ensures
        seq_lt(a, c),
    decreases a.len(),
{
    if a.len() > 0 && b.len() > 0 && c.len() > 0 && a[0] == b[0] && b[0] == c[0] {
        lemma_lt_transitive(a.drop_first(), b.drop_first(), c.drop_first());
    }
}

/// Of two different names, one comes before the other.
pub proof fn lemma_lt_total(a: Seq<char>, b: Seq<char>)
    requires
        a != b,
    ensures
        seq_lt(a, b) || seq_lt(b, a),
    decreases a.len(),
{
    if a.len() > 0 && b.len() > 0 {
        if a[0] == b[0] {
            if a.drop_first() == b.drop_first() {
                assert(a =~= seq![a[0]] + a.drop_first());
                assert(b =~= seq![b[0]] + b.drop_first());
            }
            lemma_lt_total(a.drop_first(), b.drop_first());
        } else {
            assert((a[0] as int) != (b[0] as int));
        }
    } else if a.len() == 0 && b.len() == 0 {
        assert(a =~= b);
    }
}

/// Compares two names in the order of `seq_lt`.
pub fn name_lt(a: &str, b: &str) -> (r: bool)
    ensures
        r == seq_lt(a@, b@),
{
    let na = a.unicode_len();
    let nb = b.unicode_len();
    let mut i: usize = 0;
    proof {
        assert(a@.skip(0) =~= a@);
        assert(b@.skip(0) =~= b@);
    }
    while i < na && i < nb
        invariant
            na == a@.len(),
            nb == b@.len(),
            i <= na,
            i <= nb,
            seq_lt(a@, b@) == seq_lt(a@.skip(i as int), b@.skip(i as int)),
        decreases na - i,
    {
        let ca = a.get_char(i);
        let cb = b.get_char(i);
        if (ca as u32) < (cb as u32) {
            return true;
        }
        if ca != cb {
            return false;
        }
        proof {
            assert(a@.skip(i as int).drop_first() =~= a@.skip(i as int + 1));
            assert(b@.skip(i as int).drop_first() =~= b@.skip(i as int + 1));
        }
        i = i + 1;
    }
    i < nb && i == na
}

/// Putting `x` at position `p`, after every smaller element and before a
/// larger one, keeps `s` strictly sorted and adds `x` to its elements.
pub proof fn lemma_insert_sorted(s: Seq<Seq<char>>, p: int, x: Seq<char>)
    requires
        strictly_sorted(s),
        0 <= p <= s.len(),
        forall|i: int| 0 <= i < p ==> seq_lt(#[trigger] s[i], x),
        p < s.len() ==> seq_lt(x, s[p]),
    ensures
        strictly_sorted(s.insert(p, x)),
        s.insert(p, x).to_set() =~= s.to_set().insert(x),
{
    let t = s.insert(p, x);
    assert forall|i: int, j: int| 0 <= i < j < t.len() implies #[trigger] seq_lt(t[i], t[j]) by {
        if j == p {
        } else if i == p {
            if j > p + 1 {
                assert(seq_lt(s[p], s[j - 1]));
                lemma_lt_transitive(x, s[p], s[j - 1]);
            }
        } else {
            let si = if i < p { i } else { i - 1 };
            let sj = if j < p { j } else { j - 1 };
            assert(seq_lt(s[si], s[sj]));
        }
    }
    assert forall|y: Seq<char>| t.to_set().contains(y) <==> s.to_set().insert(x).contains(y) by {
        if t.contains(y) {
            let k = choose|k: int| 0 <= k < t.len() && t[k] == y;
            if k < p {
                assert(s[k] == y);
            } else if k > p {
                assert(s[k - 1] == y);
            }
        }
        if s.contains(y) {
            let k = choose|k: int| 0 <= k < s.len() && s[k] == y;
            if k < p {
                assert(t[k] == y);
            } else {
                assert(t[k + 1] == y);
            }
        }
        if y == x {
            assert(t[p] == x);
        }
    }
}

/// Dropping the first element of a strictly sorted sequence drops it from
/// its elements.
proof fn lemma_sorted_drop_first_set(s: Seq<Seq<char>>)
    requires
        strictly_sorted(s),
        s.len() > 0,
    ensures
        s.drop_first().to_set() =~= s.to_set().remove(s[0]),
{
    assert forall|y: Seq<char>| s.drop_first().to_set().contains(y) <==> s.to_set().remove(s[0]).contains(y) by {
        if s.drop_first().contains(y) {
            let k = choose|k: int| 0 <= k < s.drop_first().len() && s.drop_first()[k] == y;
            assert(seq_lt(s[0], s[k + 1]));
            lemma_lt_irreflexive(s[0]);
            assert(s[k + 1] == y);
        }
        if s.contains(y) && y != s[0] {
            let k = choose|k: int| 0 <= k < s.len() && s[k] == y;
            assert(s.drop_first()[k - 1] == y);
        }
    }
}

/// Two strictly sorted sequences that hold the same elements are the same
/// sequence.
pub proof fn lemma_sorted_unique(s1: Seq<Seq<char>>, s2: Seq<Seq<char>>)
    requires
        strictly_sorted(s1),
        strictly_sorted(s2),
        s1.to_set() == s2.to_set(),
    ensures
        s1 == s2,
    decreases s1.len(),
{
    if s1.len() == 0 || s2.len() == 0 {
        if s1.len() > 0 {
            assert(s1.to_set().contains(s1[0]));
        }
        if s2.len() > 0 {
            assert(s2.to_set().contains(s2[0]));
        }
        assert(s1 =~= s2);
    } else {
        assert(s1.to_set().contains(s1[0]));
        assert(s2.to_set().contains(s2[0]));
        let j = choose|j: int| 0 <= j < s2.len() && s2[j] == s1[0];
        let k = choose|k: int| 0 <= k < s1.len() && s1[k] == s2[0];
        lemma_lt_irreflexive(s1[0]);
        lemma_lt_irreflexive(s2[0]);
        if j > 0 {
            assert(seq_lt(s2[0], s2[j]));
            if k > 0 {
                assert(seq_lt(s1[0], s1[k]));
                lemma_lt_asymmetric(s1[0], s2[0]);
            }
        }
        assert(s1[0] == s2[0]);
        lemma_sorted_drop_first_set(s1);
        lemma_sorted_drop_first_set(s2);
        let t1 = s1.drop_first();
        let t2 = s2.drop_first();
        assert forall|i: int, j: int| 0 <= i < j < t1.len() implies #[trigger] seq_lt(t1[i], t1[j]) by {
            assert(seq_lt(s1[i + 1], s1[j + 1]));
        }
        assert forall|i: int, j: int| 0 <= i < j < t2.len() implies #[trigger] seq_lt(t2[i], t2[j]) by {
            assert(seq_lt(s2[i + 1], s2[j + 1]));
        }
        lemma_sorted_unique(t1, t2);
        assert forall|i: int| 0 <= i < s1.len() implies s1[i] == s2[i] by {
            if i > 0 {
                assert(s1[i] == t1[i - 1]);
                assert(s2[i] == t2[i - 1]);
            }
        }
        assert(s1 =~= s2);
    }
}

/// Whether two names hold the same characters.
pub fn same_name(a: &str, b: &str) -> (r: bool)
    ensures
        r == (a@ == b@),
{
    let r = !name_lt(a, b) && !name_lt(b, a);
    proof {
        if a@ != b@ {
            lemma_lt_total(a@, b@);
        } else {
            lemma_lt_irreflexive(a@);
        }
    }
    r
}

/// The names in `names`, each once, in the order of `seq_lt`.
pub fn sorted_names(names: &Vec<String>) -> (r: Vec<String>)
    ensures
        strictly_sorted(views(r@)),
        views(r@).to_set() == views(names@).to_set(),
{
    let mut out: Vec<String> = Vec::new();
    let mut k: usize = 0;
    proof {
        assert(views(out@).to_set() =~= views(names@.take(0)).to_set());
    }
    while k < names.len()
        invariant
            k <= names.len(),
            strictly_sorted(views(out@)),
            views(out@).to_set() == views(names@.take(k as int)).to_set(),
        decreases names.len() - k,
    {
        let x = &names[k];
        let mut p: usize = 0;
        let mut stop = false;
        while p < out.len() && !stop
            invariant
                p <= out.len(),
                forall|i: int| 0 <= i < p ==> seq_lt(#[trigger] views(out@)[i], x@),
                stop ==> p < out.len() && !seq_lt(out@[p as int]@, x@),
            decreases out.len() - p + (if stop { 0int } else { 1int }),
        {
            if name_lt(out[p].as_str(), x.as_str()) {
                p = p + 1;
            } else {
                stop = true;
            }
        }
        let ghost before = views(out@);
        proof {
            assert(views(names@.take(k as int + 1)) =~= views(names@.take(k as int)).push(x@));
            views(names@.take(k as int)).lemma_push_to_set_commute(x@);
        }
        if p < out.len() && out[p] == *x {
            proof {
                assert(views(out@)[p as int] == x@);
                assert(views(out@).to_set().insert(x@) =~= views(out@).to_set());
            }
        } else {
            proof {
                if p < out.len() {
                    lemma_lt_total(before[p as int], x@);
                }
                lemma_insert_sorted(before, p as int, x@);
            }
            out.insert(p, x.clone());
            proof {
                assert(views(out@) =~= before.insert(p as int, x@));
            }
        }
        k = k + 1;
    }
    proof {
        assert(names@.take(names.len() as int) =~= names@);
    }
    out
}

} // verus!
