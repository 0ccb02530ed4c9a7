//! Directories of the in-memory filesystem, one made in the other: the
//! outer one cannot be removed before the inner one.

use vstd::prelude::*;
use crate::text::segments;
use crate::vfs::tmpfs::{
    change_outcome, lemma_index_found, lemma_index_kept, lemma_index_of, lemma_insert_at, Change,
    ChangeKind, Tree,
};
use crate::vfs::types::VfsError;

verus! {

/// What a change in the directory that `parts` lead to comes to: where it
/// is made, the names lead to a directory, the change is made among its
/// children, and the names then lead to the directory with the children
/// so changed; where it is refused although the names lead to a
/// directory, the change among its children is refused in the same way.
pub proof fn lemma_edited(tree: Tree, parts: Seq<Seq<char>>, change: Change)
    ensures
        match tree.edited(parts, change) {
            Ok(t) => {
                &&& tree.find(parts) is Ok
                &&& tree.find(parts)->Ok_0 is Dir
                &&& Tree::changed(tree.find(parts)->Ok_0.kids(), change) is Ok
                &&& t.find(parts) == Ok::<Tree, VfsError>(
                    Tree::Dir(Tree::changed(tree.find(parts)->Ok_0.kids(), change)->Ok_0),
                )
            },
            Err(e) => tree.find(parts) is Ok && tree.find(parts)->Ok_0 is Dir ==> Tree::changed(
                tree.find(parts)->Ok_0.kids(),
                change,
            ) == Err::<Seq<(Seq<char>, Tree)>, VfsError>(e),
        },
    decreases parts.len(),
{
    match tree {
        Tree::File(_) => {},
        Tree::Dir(kids) => {
            if parts.len() > 0 {
                let i = Tree::index_of(kids, parts[0]);
                lemma_index_of(kids, parts[0]);
                if i < kids.len() {
                    let rest = parts.drop_first();
                    lemma_edited(kids[i].1, rest, change);
                    match kids[i].1.edited(rest, change) {
                        Ok(t) => {
                            let now = kids.update(i, (kids[i].0, t));
                            lemma_index_found(now, parts[0], i);
                        },
                        Err(_) => {},
                    }
                }
            }
        },
    }
}

/// Where the names `parts` followed by `name` lead: to the child `name`
/// of the directory that `parts` lead to.
pub proof fn lemma_find_child(tree: Tree, parts: Seq<Seq<char>>, name: Seq<char>)
    ensures
        tree.find(parts.push(name)) == match tree.find(parts) {
            Ok(Tree::Dir(k)) => if Tree::index_of(k, name) < k.len() {
                Ok::<Tree, VfsError>(k[Tree::index_of(k, name)].1)
            } else {
                Err::<Tree, VfsError>(VfsError::NotFound)
            },
            Ok(Tree::File(_)) => Err::<Tree, VfsError>(VfsError::NotADirectory),
            Err(e) => Err::<Tree, VfsError>(e),
        },
    decreases parts.len(),
{
    let all = parts.push(name);
    match tree {
        Tree::File(_) => {
            assert(all.len() > 0);
            assert(tree.find(all) == Err::<Tree, VfsError>(VfsError::NotADirectory));
            assert(tree.find(parts) == if parts.len() == 0 {
                Ok::<Tree, VfsError>(tree)
            } else {
                Err::<Tree, VfsError>(VfsError::NotADirectory)
            });
        },
        Tree::Dir(kids) => {
            if parts.len() == 0 {
                lemma_index_of(kids, name);
                assert(all[0] == name);
                assert(all.drop_first() =~= Seq::<Seq<char>>::empty());
                let i = Tree::index_of(kids, name);
                if i < kids.len() {
                    assert(kids[i].1.find(Seq::<Seq<char>>::empty()) == Ok::<Tree, VfsError>(
                        kids[i].1,
                    ));
                }
            } else {
                let i = Tree::index_of(kids, parts[0]);
                lemma_index_of(kids, parts[0]);
                assert(all[0] == parts[0]);
                assert(all.drop_first() =~= parts.drop_first().push(name));
                if i < kids.len() {
                    lemma_find_child(kids[i].1, parts.drop_first(), name);
                }
            }
        },
    }
}

/// A directory in which another was made cannot be removed before the
/// other is.
///
/// When the directory `outer` is made, and then the directory `inner`,
/// whose names are those of `outer` and one more, removing `outer` is
/// refused because it is not empty, and the tree stays as it is; `inner`
/// can be removed; and after that `outer` can be removed.
pub proof fn lemma_nested_directories(tree: Tree, outer: Seq<char>, inner: Seq<char>)
    requires
        segments(outer, '/').len() > 0,
        segments(inner, '/').len() > 0,
        segments(inner, '/').drop_last() == segments(outer, '/'),
        change_outcome(tree, outer, ChangeKind::MakeDir, VfsError::AlreadyExists) is Ok,
        change_outcome(
            change_outcome(tree, outer, ChangeKind::MakeDir, VfsError::AlreadyExists)->Ok_0,
            inner,
            ChangeKind::MakeDir,
            VfsError::AlreadyExists,
        ) is Ok,
    ensures
        ({
            let first = change_outcome(
                tree,
                outer,
                ChangeKind::MakeDir,
                VfsError::AlreadyExists,
            )->Ok_0;
            let both = change_outcome(
                first,
                inner,
                ChangeKind::MakeDir,
                VfsError::AlreadyExists,
            )->Ok_0;
            let without = change_outcome(
                both,
                inner,
                ChangeKind::RemoveDir,
                VfsError::PermissionDenied,
            );
            &&& change_outcome(both, outer, ChangeKind::RemoveDir, VfsError::PermissionDenied)
                == Err::<Tree, VfsError>(VfsError::NotEmpty)
            &&& without is Ok
            &&& change_outcome(
                without->Ok_0,
                outer,
                ChangeKind::RemoveDir,
                VfsError::PermissionDenied,
            ) is Ok
        }),
{
    let a = segments(outer, '/');
    let b = segments(inner, '/');
    let above = a.drop_last();
    let name = b.last();
    let none = Seq::<u8>::empty();
    let empty = Seq::<(Seq<char>, Tree)>::empty();
    assert(a =~= above.push(a.last()));
    assert(b =~= a.push(name));
    let make_a = Change { kind: ChangeKind::MakeDir, name: a.last(), data: none };
    let make_b = Change { kind: ChangeKind::MakeDir, name, data: none };
    let drop_a = Change { kind: ChangeKind::RemoveDir, name: a.last(), data: none };
    let drop_b = Change { kind: ChangeKind::RemoveDir, name, data: none };
    let first = tree.edited(above, make_a)->Ok_0;
    // The outer directory is found, empty.
    lemma_edited(tree, above, make_a);
    let k0 = tree.find(above)->Ok_0.kids();
    lemma_index_of(k0, a.last());
    lemma_insert_at(k0, a.last());
    let at = Tree::insert_at(k0, a.last());
    let k1 = k0.insert(at, (a.last(), Tree::Dir(empty)));
    assert(Tree::changed(k0, make_a) == Ok::<Seq<(Seq<char>, Tree)>, VfsError>(k1));
    lemma_index_kept(k0, k1, a.last(), at);
    lemma_find_child(first, above, a.last());
    assert(first.find(a) == Ok::<Tree, VfsError>(Tree::Dir(empty)));
    // The inner directory is its only child.
    let both = first.edited(a, make_b)->Ok_0;
    lemma_edited(first, a, make_b);
    let inside = seq![(name, Tree::Dir(empty))];
    assert(Tree::insert_at(empty, name) == 0);
    assert(empty.insert(0, (name, Tree::Dir(empty))) =~= inside);
    assert(Tree::changed(empty, make_b) == Ok::<Seq<(Seq<char>, Tree)>, VfsError>(inside));
    assert(both.find(a) == Ok::<Tree, VfsError>(Tree::Dir(inside)));
    // The outer directory is not empty.
    lemma_find_child(both, above, a.last());
    lemma_edited(both, above, drop_a);
    let k2 = both.find(above)->Ok_0.kids();
    lemma_index_of(k2, a.last());
    assert(Tree::changed(k2, drop_a) == Err::<Seq<(Seq<char>, Tree)>, VfsError>(
        VfsError::NotEmpty,
    ));
    // The inner directory is removed.
    lemma_edited(both, a, drop_b);
    lemma_index_found(inside, name, 0);
    assert(inside.remove(0) =~= empty);
    assert(Tree::changed(inside, drop_b) == Ok::<Seq<(Seq<char>, Tree)>, VfsError>(empty));
    let without = both.edited(a, drop_b)->Ok_0;
    assert(without.find(a) == Ok::<Tree, VfsError>(Tree::Dir(empty)));
    // The outer directory is empty again.
    lemma_find_child(without, above, a.last());
    lemma_edited(without, above, drop_a);
    let k3 = without.find(above)->Ok_0.kids();
    lemma_index_of(k3, a.last());
    assert(Tree::changed(k3, drop_a) is Ok);
}

} // verus!
