//! Writing the namespace tree out as nested `pub mod` declarations.
use vstd::prelude::*;
use vstd::string::*;
use crate::builder::{TreeError, build_tree, reports, spans, valid};
use crate::segments::views;
use crate::tree::{TreeEntry, sorted_tree};

verus! {

broadcast use vstd::std_specs::vec::group_vec_axioms;

/// The directive that splices in `file` from `dir`, through the macro named
/// `splice`: `splice!("dir/file");`.
pub open spec fn leaf_text(splice: Seq<char>, dir: Seq<char>, file: Seq<char>) -> Seq<char> {
    splice + seq!['!', '(', '"'] + dir + seq!['/'] + file + seq!['"', ')', ';']
}

/// The opening of the namespace `name`: `pub mod name {`.
pub open spec fn mod_open(name: Seq<char>) -> Seq<char> {
    seq!['p', 'u', 'b', ' ', 'm', 'o', 'd', ' '] + name + seq![' ', '{']
}

/// `text` holds `part` somewhere in it.
pub open spec fn holds(text: Seq<char>, part: Seq<char>) -> bool {
    exists|a: Seq<char>, b: Seq<char>| text == a + part + b
}

/// `chain` follows the namespaces of `path` down: for each segment, the next
/// text of `chain` is the inside of a block that declares that namespace and
/// stands in the text before it.
pub open spec fn nests(chain: Seq<Seq<char>>, path: Seq<Seq<char>>) -> bool {
    &&& chain.len() == path.len() + 1
    &&& forall|i: int|
        0 <= i < path.len() ==> #[trigger] holds(chain[i], mod_open(path[i]) + chain[i + 1] + seq!['}'])
}

/// Following the namespaces of `path` from `text`, each declared as a block
/// inside the one before, leads to exactly `leaf`.
pub open spec fn reaches(text: Seq<char>, path: Seq<Seq<char>>, leaf: Seq<char>) -> bool {
    exists|chain: Seq<Seq<char>>| #[trigger] nests(chain, path) && chain[0] == text && chain.last() == leaf
}

/// The text of an entry: a leaf's directive, or each child of a branch in
/// turn, wrapped in its namespace.
pub open spec fn emit_spec(t: TreeEntry, splice: Seq<char>, dir: Seq<char>) -> Seq<char>
    decreases t,
{
    match t {
        TreeEntry::Node(f) => leaf_text(splice, dir, f@),
        TreeEntry::Branch(ch) => emit_children(ch@, splice, dir),
    }
}

/// The text of a run of children, in order.
pub open spec fn emit_children(ch: Seq<(String, TreeEntry)>, splice: Seq<char>, dir: Seq<char>) -> Seq<char>
    decreases ch,
{
    if ch.len() == 0 {
        Seq::empty()
    } else {
        emit_children(ch.drop_last(), splice, dir) + mod_open(ch.last().0@) + emit_spec(
            ch.last().1,
            splice,
            dir,
        ) + seq!['}']
    }
}

/// Appends the text of `t` to `out`.
pub fn emit_into(t: &TreeEntry, splice: &str, dir: &str, out: &mut String)
    ensures
        final(out)@ == old(out)@ + emit_spec(*t, splice@, dir@),
    decreases t,
{
    match t {
        TreeEntry::Node(f) => {
            proof {
                reveal_strlit("!(\"");
                reveal_strlit("/");
                reveal_strlit("\");");
            }
            out.append(splice);
            out.append("!(\"");
            out.append(dir);
            out.append("/");
            out.append(f.as_str());
            out.append("\");");
            proof {
                assert(final(out)@ =~= old(out)@ + emit_spec(*t, splice@, dir@));
            }
        },
        TreeEntry::Branch(ch) => {
            let mut i: usize = 0;
            proof {
                assert(ch@.take(0) =~= Seq::<(String, TreeEntry)>::empty());
                assert(out@ =~= old(out)@ + emit_children(ch@.take(0), splice@, dir@));
            }
            while i < ch.len()
                invariant
                    i <= ch.len(),
                    *t == TreeEntry::Branch(*ch),
                    out@ == old(out)@ + emit_children(ch@.take(i as int), splice@, dir@),
                decreases ch.len() - i,
            {
                proof {
                    reveal_strlit("pub mod ");
                    reveal_strlit(" {");
                    reveal_strlit("}");
                }
                let ghost start = out@;
                out.append("pub mod ");
                out.append(ch[i].0.as_str());
                out.append(" {");
                proof {
                    assert(decreases_to!(*ch => ch@[i as int]));
                    assert(decreases_to!(ch@[i as int] => ch@[i as int].1));
                    assert((*t)->Branch_0 == *ch);
                    assert(decreases_to!(*t => (*t)->Branch_0));
                    assert(decreases_to!(*t => ch@[i as int].1));
                }
                emit_into(&ch[i].1, splice, dir, out);
                out.append("}");
                proof {
                    let c = ch@.take(i as int + 1);
                    assert(c.drop_last() =~= ch@.take(i as int));
                    assert(c.last() == ch@[i as int]);
                    assert(out@ =~= old(out)@ + emit_children(c, splice@, dir@));
                }
                i = i + 1;
            }
            proof {
                assert(ch@.take(ch.len() as int) =~= ch@);
            }
        },
    }
}

/// The text of `t`.
pub fn emit(t: &TreeEntry, splice: &str, dir: &str) -> (r: String)
    ensures
        r@ == emit_spec(*t, splice@, dir@),
{
    let mut out = String::new();
    emit_into(t, splice, dir, &mut out);
    proof {
        assert(out@ =~= emit_spec(*t, splice@, dir@));
    }
    out
}

/// `text` is the writing out of a tree of `names` whose branches keep their
/// children in the order of their names.
pub open spec fn is_text_of(text: Seq<char>, names: Set<Seq<char>>, splice: Seq<char>, dir: Seq<char>) -> bool {
    exists|t: TreeEntry| spans(t, names) && sorted_tree(t) && text == #[trigger] emit_spec(t, splice, dir)
}

/// The nested declarations for the fragments `file_names` of directory
/// `dir`, each leaf spliced in through the macro named `splice`. Fails
/// exactly where a name is malformed or two names collide.
pub fn generate(file_names: &Vec<String>, dir: &str, splice: &str) -> (r: Result<String, TreeError>)
    ensures
        r is Ok <==> valid(views(file_names@).to_set()),
        match r {
            Ok(text) => is_text_of(text@, views(file_names@).to_set(), splice@, dir@),
            Err(e) => reports(e, views(file_names@)),
        },
{
    match build_tree(file_names) {
        Ok(t) => Ok(emit(&t, splice, dir)),
        Err(e) => Err(e),
    }
}

} // verus!
