//! A filesystem held in memory: a tree of directories and files.

use vstd::prelude::*;
use crate::text::{chars_eq, chars_of, segments, split_segments, string_of, texts};
use crate::vfs::types::{
    read_at, read_window, seek_allowed, seek_goal, seek_position, write_at, written, DirEntry,
    DirEntryModel, FileType, Filesystem, Metadata, OpenFlags, SeekFrom, VfsError, VfsResult,
    O_APPEND, O_CREAT, O_TRUNC, listing_view,
};

verus! {

/// A node of the tree: the bytes of a file, or the named children of a
/// directory, kept in the order of their names.
pub enum Node {
    File(Vec<u8>),
    Directory(Vec<(Vec<char>, Node)>),
}

/// The tree as the contracts see it.
pub enum Tree {
    File(Seq<u8>),
    Dir(Seq<(Seq<char>, Tree)>),
}

/// Whether `a` comes before `b` in the order of names: character by
/// character, a proper prefix first.
pub open spec fn name_less(a: Seq<char>, b: Seq<char>) -> bool
    decreases a.len(),
{
    if b.len() == 0 {
        false
    } else if a.len() == 0 {
        true
    } else if a[0] != b[0] {
        a[0] < b[0]
    } else {
        name_less(a.drop_first(), b.drop_first())
    }
}

/// Decides whether `a` comes before `b` in the order of names.
pub fn name_before(a: &[char], b: &[char]) -> (r: bool)
    ensures
        r == name_less(a@, b@),
{
    let mut i: usize = 0;
    proof {
        assert(a@.subrange(0, a@.len() as int) =~= a@);
        assert(b@.subrange(0, b@.len() as int) =~= b@);
    }
    while i < a.len() && i < b.len()
        invariant
            i <= a@.len(),
            i <= b@.len(),
            name_less(a@, b@) == name_less(
                a@.subrange(i as int, a@.len() as int),
                b@.subrange(i as int, b@.len() as int),
            ),
        decreases a@.len() - i,
    {
        proof {
            let x = a@.subrange(i as int, a@.len() as int);
            let y = b@.subrange(i as int, b@.len() as int);
            assert(x[0] == a@[i as int]);
            assert(y[0] == b@[i as int]);
            assert(x.drop_first() =~= a@.subrange(i + 1, a@.len() as int));
            assert(y.drop_first() =~= b@.subrange(i + 1, b@.len() as int));
        }
        if a[i] != b[i] {
            return a[i] < b[i];
        }
        i += 1;
    }
    i < b.len()
}

/// No name comes before itself.
pub proof fn lemma_name_order_strict(a: Seq<char>)
    ensures
        !name_less(a, a),
    decreases a.len(),
{
    if a.len() > 0 {
        lemma_name_order_strict(a.drop_first());
    }
}

/// Of two different names one comes before the other.
pub proof fn lemma_name_order_total(a: Seq<char>, b: Seq<char>)
    ensures
        a == b || name_less(a, b) || name_less(b, a),
    decreases a.len(),
{
    if a.len() > 0 && b.len() > 0 && a[0] == b[0] {
        lemma_name_order_total(a.drop_first(), b.drop_first());
        if a.drop_first() == b.drop_first() {
            assert(a =~= seq![a[0]].add(a.drop_first()));
            assert(b =~= seq![b[0]].add(b.drop_first()));
        }
    } else if a.len() == 0 && b.len() == 0 {
        assert(a =~= b);
    }
}

/// A name that comes before a name that comes before a third comes
/// before the third.
pub proof fn lemma_name_order_trans(a: Seq<char>, b: Seq<char>, c: Seq<char>)
    requires
        name_less(a, b),
        name_less(b, c),
    ensures
        name_less(a, c),
    decreases a.len(),
{
    if a.len() > 0 && a[0] == b[0] && b[0] == c[0] {
        lemma_name_order_trans(a.drop_first(), b.drop_first(), c.drop_first());
    }
}

/// Whether the names rise strictly: each comes before the next, so that
/// no two are the same.
pub open spec fn rising(names: Seq<Seq<char>>) -> bool {
    forall|i: int, j: int| 0 <= i < j < names.len() ==> name_less(names[i], names[j])
}

/// Names that rise are still rising when one of them is taken out.
pub proof fn lemma_rising_without(names: Seq<Seq<char>>, at: int)
    requires
        rising(names),
        0 <= at < names.len(),
    ensures
        rising(names.remove(at)),
{
    let rest = names.remove(at);
    assert forall|i: int, j: int| 0 <= i < j < rest.len() implies name_less(rest[i], rest[j]) by {
        let a = if i < at {
            i
        } else {
            i + 1
        };
        let b = if j < at {
            j
        } else {
            j + 1
        };
        assert(rest[i] == names[a] && rest[j] == names[b]);
    }
}

/// The place at which a name is inserted among rising names: every name
/// before it comes before the name, and no name from it on does.
pub open spec fn place_of(names: Seq<Seq<char>>, name: Seq<char>) -> int
    decreases names.len(),
{
    if names.len() == 0 {
        0
    } else if !name_less(names[0], name) {
        0
    } else {
        1 + place_of(names.drop_first(), name)
    }
}

/// Names that rise are still rising when a name that is none of them is
/// inserted at its place.
pub proof fn lemma_rising_with(names: Seq<Seq<char>>, name: Seq<char>)
    requires
        rising(names),
        !names.contains(name),
    ensures
        0 <= place_of(names, name) <= names.len(),
        rising(names.insert(place_of(names, name), name)),
    decreases names.len(),
{
    let at = place_of(names, name);
    if names.len() == 0 {
        assert(names.insert(0, name) =~= seq![name]);
    } else if !name_less(names[0], name) {
        let now = names.insert(0, name);
        assert(names.contains(names[0]));
        lemma_name_order_total(names[0], name);
        assert forall|i: int, j: int| 0 <= i < j < now.len() implies name_less(now[i], now[j]) by {
            if i == 0 {
                assert(now[j] == names[j - 1]);
                if j > 1 {
                    lemma_name_order_trans(name, names[0], names[j - 1]);
                }
            } else {
                assert(now[i] == names[i - 1] && now[j] == names[j - 1]);
            }
        }
    } else {
        let rest = names.drop_first();
        assert forall|i: int, j: int| 0 <= i < j < rest.len() implies name_less(rest[i], rest[j]) by {
            assert(rest[i] == names[i + 1] && rest[j] == names[j + 1]);
        }
        assert(!rest.contains(name)) by {
            if rest.contains(name) {
                let k = choose|k: int| 0 <= k < rest.len() && rest[k] == name;
                assert(names[k + 1] == name);
            }
        }
        lemma_rising_with(rest, name);
        let inner = rest.insert(at - 1, name);
        let now = names.insert(at, name);
        assert(now =~= seq![names[0]].add(inner));
        assert forall|i: int, j: int| 0 <= i < j < now.len() implies name_less(now[i], now[j]) by {
            if i == 0 {
                if j == at {
                    assert(now[j] == name);
                } else {
                    assert(now[j] == names[if j < at {
                        j
                    } else {
                        j - 1
                    }]);
                }
            } else {
                assert(now[i] == inner[i - 1] && now[j] == inner[j - 1]);
            }
        }
    }
}

impl Tree {
    /// The names of the children `kids`.
    pub open spec fn names_of(kids: Seq<(Seq<char>, Tree)>) -> Seq<Seq<char>> {
        Seq::new(kids.len(), |i: int| kids[i].0)
    }

    /// Whether the children of every directory of the tree stand in
    /// strictly rising order of their names.
    pub open spec fn sorted(self) -> bool
        decreases self,
    {
        match self {
            Tree::File(_) => true,
            Tree::Dir(kids) => rising(Self::names_of(kids)) && forall|i: int|
                0 <= i < kids.len() ==> (#[trigger] kids[i]).1.sorted(),
        }
    }

    /// The children of a directory; a file has none.
    pub open spec fn kids(self) -> Seq<(Seq<char>, Tree)> {
        match self {
            Tree::Dir(k) => k,
            Tree::File(_) => Seq::empty(),
        }
    }

    /// Position of the child named `name`, or the number of children when
    /// there is none.
    pub open spec fn index_of(kids: Seq<(Seq<char>, Tree)>, name: Seq<char>) -> int
        decreases kids.len(),
    {
        if kids.len() == 0 {
            0
        } else if kids[0].0 == name {
            0
        } else {
            1 + Self::index_of(kids.drop_first(), name)
        }
    }

    /// Position at which a child named `name` is inserted: before the
    /// first child whose name does not come before it.
    pub open spec fn insert_at(kids: Seq<(Seq<char>, Tree)>, name: Seq<char>) -> int
        decreases kids.len(),
    {
        if kids.len() == 0 {
            0
        } else if !name_less(kids[0].0, name) {
            0
        } else {
            1 + Self::insert_at(kids.drop_first(), name)
        }
    }

    /// The node that the names `parts` lead to.
    pub open spec fn find(self, parts: Seq<Seq<char>>) -> Result<Tree, VfsError>
        decreases parts.len(),
    {
        if parts.len() == 0 {
            Ok(self)
        } else {
            match self {
                Tree::File(_) => Err(VfsError::NotADirectory),
                Tree::Dir(kids) => {
                    let i = Self::index_of(kids, parts[0]);
                    if 0 <= i < kids.len() {
                        kids[i].1.find(parts.drop_first())
                    } else {
                        Err(VfsError::NotFound)
                    }
                },
            }
        }
    }

    /// What a node is listed as.
    pub open spec fn file_type(self) -> FileType {
        match self {
            Tree::File(_) => FileType::File,
            Tree::Dir(_) => FileType::Directory,
        }
    }

    /// The size of a node: the bytes of a file, the children of a directory.
    pub open spec fn size(self) -> nat {
        match self {
            Tree::File(d) => d.len(),
            Tree::Dir(k) => k.len(),
        }
    }

    /// The listing of the children `kids`.
    pub open spec fn listing(kids: Seq<(Seq<char>, Tree)>) -> Seq<DirEntryModel> {
        Seq::new(
            kids.len(),
            |i: int| DirEntryModel { name: kids[i].0, file_type: kids[i].1.file_type() },
        )
    }

    /// The children `kids` after `change` is made among them, or why the
    /// change is refused.
    pub open spec fn changed(kids: Seq<(Seq<char>, Tree)>, change: Change) -> Result<
        Seq<(Seq<char>, Tree)>,
        VfsError,
    > {
        let i = Self::index_of(kids, change.name);
        let there = 0 <= i < kids.len();
        match change.kind {
            ChangeKind::CreateFile => if there {
                Ok(kids.update(i, (change.name, Tree::File(Seq::empty()))))
            } else {
                Ok(kids.insert(Self::insert_at(kids, change.name), (change.name, Tree::File(Seq::empty()))))
            },
            ChangeKind::MakeDir => if there {
                Err(VfsError::AlreadyExists)
            } else {
                Ok(kids.insert(Self::insert_at(kids, change.name), (change.name, Tree::Dir(Seq::empty()))))
            },
            ChangeKind::RemoveFile => if !there {
                Err(VfsError::NotFound)
            } else if kids[i].1 is Dir {
                Err(VfsError::IsADirectory)
            } else {
                Ok(kids.remove(i))
            },
            ChangeKind::RemoveDir => if !there {
                Err(VfsError::NotFound)
            } else if kids[i].1 is File {
                Err(VfsError::NotADirectory)
            } else if kids[i].1.kids().len() > 0 {
                Err(VfsError::NotEmpty)
            } else {
                Ok(kids.remove(i))
            },
            ChangeKind::Store => if there && kids[i].1 is File {
                Ok(kids.update(i, (change.name, Tree::File(change.data))))
            } else {
                Err(VfsError::NotFound)
            },
        }
    }

    /// The tree after `change` is made in the directory that the names
    /// `parts` lead to, or why it is refused.
    pub open spec fn edited(self, parts: Seq<Seq<char>>, change: Change) -> Result<Tree, VfsError>
        decreases parts.len(),
    {
        match self {
            Tree::File(_) => Err(VfsError::NotADirectory),
            Tree::Dir(kids) => if parts.len() == 0 {
                match Self::changed(kids, change) {
                    Ok(k) => Ok(Tree::Dir(k)),
                    Err(e) => Err(e),
                }
            } else {
                let i = Self::index_of(kids, parts[0]);
                if 0 <= i < kids.len() {
                    match kids[i].1.edited(parts.drop_first(), change) {
                        Ok(t) => Ok(Tree::Dir(kids.update(i, (kids[i].0, t)))),
                        Err(e) => Err(e),
                    }
                } else {
                    Err(VfsError::NotFound)
                }
            },
        }
    }
}

/// What is done in a directory.
pub enum ChangeKind {
    /// A child becomes an empty file.
    CreateFile,
    /// A new empty directory is added.
    MakeDir,
    /// A file is removed.
    RemoveFile,
    /// An empty directory is removed.
    RemoveDir,
    /// The bytes of a file are replaced.
    Store,
}

/// A change in a directory, as the contracts see it.
pub struct Change {
    pub kind: ChangeKind,
    pub name: Seq<char>,
    pub data: Seq<u8>,
}

impl Node {
    /// The views of the children `kids` from position `from` on, after `acc`.
    pub open spec fn kids_view(kids: Seq<(Vec<char>, Node)>, count: nat) -> Seq<(Seq<char>, Tree)>
        decreases kids, count,
    {
        if count == 0 || count > kids.len() {
            Seq::empty()
        } else {
            Self::kids_view(kids, (count - 1) as nat).push(
                (kids[count - 1].0@, kids[count - 1].1.view()),
            )
        }
    }

    /// The tree that the node stands for.
    pub open spec fn view(&self) -> Tree
        decreases self,
    {
        match self {
            Node::File(d) => Tree::File(d@),
            Node::Directory(k) => Tree::Dir(Self::kids_view(k@, k@.len())),
        }
    }

    /// The views of the first children are views of the children.
    pub proof fn lemma_kids_view(kids: Seq<(Vec<char>, Node)>, count: nat)
        requires
            count <= kids.len(),
        ensures
            Self::kids_view(kids, count).len() == count,
            forall|i: int|
                0 <= i < count ==> #[trigger] Self::kids_view(kids, count)[i] == (
                    kids[i].0@,
                    kids[i].1.view(),
                ),
        decreases count,
    {
        if count > 0 {
            Self::lemma_kids_view(kids, (count - 1) as nat);
        }
    }

    /// As a directory's children, if the node is a directory.
    pub fn as_dir(&self) -> (r: Option<&Vec<(Vec<char>, Node)>>)
        ensures
            r is Some <==> self is Directory,
            r matches Some(k) ==> *k == self->Directory_0,
    {
        match self {
            Node::Directory(entries) => Some(entries),
            _ => None,
        }
    }

    /// As a file's bytes, if the node is a file.
    pub fn as_file(&self) -> (r: Option<&Vec<u8>>)
        ensures
            r is Some <==> self is File,
            r matches Some(d) ==> *d == self->File_0,
    {
        match self {
            Node::File(data) => Some(data),
            _ => None,
        }
    }

    /// What the node is listed as.
    pub fn file_type(&self) -> (r: FileType)
        ensures
            r == self.view().file_type(),
    {
        match self {
            Node::File(_) => FileType::File,
            Node::Directory(_) => FileType::Directory,
        }
    }

    /// The size of the node.
    pub fn size(&self) -> (r: usize)
        ensures
            r == self.view().size(),
    {
        match self {
            Node::File(data) => data.len(),
            Node::Directory(entries) => {
                proof {
                    Self::lemma_kids_view(entries@, entries@.len());
                }
                entries.len()
            },
        }
    }
}

/// What is done in a directory, with the name and the bytes it needs.
pub struct Edit {
    pub kind: ChangeKind,
    pub name: Vec<char>,
    pub data: Vec<u8>,
}

impl View for Edit {
    type V = Change;

    open spec fn view(&self) -> Change {
        Change { kind: self.kind, name: self.name@, data: self.data@ }
    }
}

/// Finds the child named `name`.
pub fn find_child(kids: &Vec<(Vec<char>, Node)>, name: &[char]) -> (r: Option<usize>)
    ensures
        match r {
            Some(i) => i < kids@.len() && i == Tree::index_of(
                Node::kids_view(kids@, kids@.len()),
                name@,
            ),
            None => Tree::index_of(Node::kids_view(kids@, kids@.len()), name@) >= kids@.len(),
        },
{
    let n: usize = kids.len();
    let ghost all = Node::kids_view(kids@, kids@.len());
    let mut i: usize = 0;
    proof {
        Node::lemma_kids_view(kids@, kids@.len());
        assert(all.subrange(0, n as int) =~= all);
    }
    while i < n
        invariant
            i <= n,
            n == kids@.len(),
            all == Node::kids_view(kids@, kids@.len()),
            all.len() == n,
            forall|k: int| 0 <= k < n ==> #[trigger] all[k] == (kids@[k].0@, kids@[k].1.view()),
            Tree::index_of(all, name@) == i + Tree::index_of(
                all.subrange(i as int, n as int),
                name@,
            ),
        decreases n - i,
    {
        proof {
            let rest = all.subrange(i as int, n as int);
            assert(rest[0] == all[i as int]);
            assert(rest.drop_first() =~= all.subrange(i + 1, n as int));
        }
        if chars_eq(kids[i].0.as_slice(), name) {
            return Some(i);
        }
        i += 1;
    }
    proof {
        assert(all.subrange(n as int, n as int).len() == 0);
    }
    None
}

/// Finds the position at which a child named `name` is inserted.
pub fn insert_pos(kids: &Vec<(Vec<char>, Node)>, name: &[char]) -> (r: usize)
    ensures
        r <= kids@.len(),
        r == Tree::insert_at(Node::kids_view(kids@, kids@.len()), name@),
{
    let n: usize = kids.len();
    let ghost all = Node::kids_view(kids@, kids@.len());
    let mut i: usize = 0;
    proof {
        Node::lemma_kids_view(kids@, kids@.len());
        assert(all.subrange(0, n as int) =~= all);
    }
    while i < n
        invariant
            i <= n,
            n == kids@.len(),
            all == Node::kids_view(kids@, kids@.len()),
            all.len() == n,
            forall|k: int| 0 <= k < n ==> #[trigger] all[k] == (kids@[k].0@, kids@[k].1.view()),
            Tree::insert_at(all, name@) == i + Tree::insert_at(
                all.subrange(i as int, n as int),
                name@,
            ),
        decreases n - i,
    {
        proof {
            let rest = all.subrange(i as int, n as int);
            assert(rest[0] == all[i as int]);
            assert(rest.drop_first() =~= all.subrange(i + 1, n as int));
        }
        if !name_before(kids[i].0.as_slice(), name) {
            return i;
        }
        i += 1;
    }
    proof {
        assert(all.subrange(n as int, n as int).len() == 0);
    }
    n
}

/// Makes the change `edit` among the children `kids`.
pub fn apply_change(kids: &mut Vec<(Vec<char>, Node)>, edit: Edit) -> (r: VfsResult<()>)
    ensures
        match Tree::changed(Node::kids_view(old(kids)@, old(kids)@.len()), edit@) {
            Ok(k) => r is Ok && Node::kids_view(final(kids)@, final(kids)@.len()) == k,
            Err(e) => r == Err::<(), VfsError>(e) && final(kids)@ == old(kids)@,
        },
{
    let ghost before = Node::kids_view(kids@, kids@.len());
    proof {
        Node::lemma_kids_view(kids@, kids@.len());
    }
    let found = find_child(kids, edit.name.as_slice());
    match edit.kind {
        ChangeKind::CreateFile => {
            match found {
                Some(i) => {
                    kids[i] = (edit.name, Node::File(Vec::new()));
                },
                None => {
                    let at = insert_pos(kids, edit.name.as_slice());
                    kids.insert(at, (edit.name, Node::File(Vec::new())));
                },
            }
        },
        ChangeKind::MakeDir => {
            match found {
                Some(_) => {
                    return Err(VfsError::AlreadyExists);
                },
                None => {
                    let at = insert_pos(kids, edit.name.as_slice());
                    kids.insert(at, (edit.name, Node::Directory(Vec::new())));
                },
            }
        },
        ChangeKind::RemoveFile => {
            match found {
                None => {
                    return Err(VfsError::NotFound);
                },
                Some(i) => {
                    match &kids[i].1 {
                        Node::Directory(_) => {
                            return Err(VfsError::IsADirectory);
                        },
                        Node::File(_) => {},
                    }
                    kids.remove(i);
                },
            }
        },
        ChangeKind::RemoveDir => {
            match found {
                None => {
                    return Err(VfsError::NotFound);
                },
                Some(i) => {
                    match &kids[i].1 {
                        Node::File(_) => {
                            return Err(VfsError::NotADirectory);
                        },
                        Node::Directory(inner) => {
                            proof {
                                Node::lemma_kids_view(inner@, inner@.len());
                            }
                            if inner.len() > 0 {
                                return Err(VfsError::NotEmpty);
                            }
                        },
                    }
                    kids.remove(i);
                },
            }
        },
        ChangeKind::Store => {
            match found {
                None => {
                    return Err(VfsError::NotFound);
                },
                Some(i) => {
                    match &kids[i].1 {
                        Node::Directory(_) => {
                            return Err(VfsError::NotFound);
                        },
                        Node::File(_) => {},
                    }
                    kids[i] = (edit.name, Node::File(edit.data));
                },
            }
        },
    }
    proof {
        Node::lemma_kids_view(kids@, kids@.len());
        let want = Tree::changed(before, edit@)->Ok_0;
        assert(Node::kids_view(kids@, kids@.len()) =~= want);
    }
    Ok(())
}

/// Makes the change `edit` in the directory that the names
/// `parts[from..]` lead to from `node`.
pub fn edit_tree(node: &mut Node, parts: &Vec<Vec<char>>, from: usize, edit: Edit) -> (r:
    VfsResult<()>)
    requires
        from <= parts@.len(),
    ensures
        match old(node).view().edited(texts(parts@).subrange(from as int, parts@.len() as int), edit@) {
            Ok(t) => r is Ok && final(node).view() == t,
            Err(e) => r == Err::<(), VfsError>(e) && final(node).view() == old(node).view(),
        },
    decreases parts@.len() - from,
{
    let ghost rest = texts(parts@).subrange(from as int, parts@.len() as int);
    match node {
        Node::File(_) => Err(VfsError::NotADirectory),
        Node::Directory(kids) => {
            if from == parts.len() {
                assert(rest.len() == 0);
                apply_change(kids, edit)
            } else {
                proof {
                    assert(rest[0] == parts@[from as int]@);
                    assert(rest.drop_first() =~= texts(parts@).subrange(
                        from + 1,
                        parts@.len() as int,
                    ));
                    Node::lemma_kids_view(kids@, kids@.len());
                }
                let ghost before = Node::kids_view(kids@, kids@.len());
                let ghost old_kids = kids@;
                match find_child(kids, parts[from].as_slice()) {
                    None => Err(VfsError::NotFound),
                    Some(i) => {
                        let r = edit_tree(&mut kids[i].1, parts, from + 1, edit);
                        proof {
                            if r is Ok {
                                Node::lemma_kids_view(kids@, kids@.len());
                                assert(Node::kids_view(kids@, kids@.len()) =~= before.update(
                                    i as int,
                                    (before[i as int].0, kids@[i as int].1.view()),
                                ));
                            } else {
                                Node::lemma_kids_view(kids@, kids@.len());
                                assert(Node::kids_view(kids@, kids@.len()) =~= before);
                            }
                        }
                        r
                    },
                }
            }
        },
    }
}

/// Follows the names `parts` from `root`.
pub fn navigate<'a>(root: &'a Node, parts: &Vec<Vec<char>>) -> (r: VfsResult<&'a Node>)
    ensures
        match root.view().find(texts(parts@)) {
            Ok(t) => r matches Ok(n) && n.view() == t,
            Err(e) => r matches Err(f) && f == e,
        },
{
    let mut current: &Node = root;
    let n: usize = parts.len();
    let ghost all = texts(parts@);
    let mut i: usize = 0;
    proof {
        assert(all.subrange(0, n as int) =~= all);
    }
    while i < n
        invariant
            i <= n,
            n == parts@.len(),
            all == texts(parts@),
            root.view().find(all) == current.view().find(all.subrange(i as int, n as int)),
        decreases n - i,
    {
        proof {
            let rest = all.subrange(i as int, n as int);
            assert(rest[0] == parts@[i as int]@);
            assert(rest.drop_first() =~= all.subrange(i + 1, n as int));
        }
        match current {
            Node::File(_) => {
                return Err(VfsError::NotADirectory);
            },
            Node::Directory(kids) => {
                proof {
                    Node::lemma_kids_view(kids@, kids@.len());
                }
                match find_child(kids, parts[i].as_slice()) {
                    None => {
                        return Err(VfsError::NotFound);
                    },
                    Some(k) => {
                        current = &kids[k].1;
                    },
                }
            },
        }
        i += 1;
    }
    Ok(current)
}

/// The filesystem: the root directory of the tree.
pub struct TmpFs {
    pub root: Node,
}

/// An open file of a `TmpFs`: a copy of the bytes, written through to the
/// tree on every write.
pub struct TmpFileHandle {
    pub data: Vec<u8>,
    pub position: usize,
    pub path: String,
    pub flags: OpenFlags,
}

/// The bytes and the position a file with the bytes `stored` is opened
/// with: no bytes with `O_TRUNC`, and with `O_APPEND` the position at the
/// end of the bytes.
pub open spec fn opened(stored: Seq<u8>, flags: OpenFlags) -> (Seq<u8>, int) {
    let data = if flags.contains_spec(OpenFlags(O_TRUNC)) {
        Seq::<u8>::empty()
    } else {
        stored
    };
    (data, if flags.contains_spec(OpenFlags(O_APPEND)) {
        data.len() as int
    } else {
        0
    })
}

/// What opening `path` with `flags` gives in the tree `tree`: the bytes
/// and the position of the handle, or the error; and the tree afterwards,
/// which differs only when a file was created.
pub open spec fn open_outcome(tree: Tree, path: Seq<char>, flags: OpenFlags) -> (
    Result<(Seq<u8>, int), VfsError>,
    Tree,
) {
    let parts = segments(path, '/');
    if parts.len() == 0 {
        (Err(VfsError::IsADirectory), tree)
    } else {
        match tree.find(parts) {
            Ok(Tree::File(d)) => (Ok(opened(d, flags)), tree),
            Ok(Tree::Dir(_)) => (Err(VfsError::IsADirectory), tree),
            Err(e) => if e == VfsError::NotFound && flags.contains_spec(OpenFlags(O_CREAT)) {
                match tree.edited(
                    parts.drop_last(),
                    Change { kind: ChangeKind::CreateFile, name: parts.last(), data: Seq::empty() },
                ) {
                    Ok(t) => (Ok((Seq::<u8>::empty(), 0int)), t),
                    Err(f) => (Err(f), tree),
                }
            } else {
                (Err(e), tree)
            },
        }
    }
}

/// What a change named by the last name of `path`, made in the directory
/// that the names before it lead to, gives; `refusal` when the path has no
/// name.
pub open spec fn change_outcome(
    tree: Tree,
    path: Seq<char>,
    kind: ChangeKind,
    refusal: VfsError,
) -> Result<Tree, VfsError> {
    let parts = segments(path, '/');
    if parts.len() == 0 {
        Err(refusal)
    } else {
        tree.edited(parts.drop_last(), Change { kind, name: parts.last(), data: Seq::empty() })
    }
}

impl TmpFs {
    /// An empty filesystem.
    pub fn new() -> (r: Self)
        ensures
            r.root.view() == Tree::Dir(Seq::empty()),
            r.root.view().sorted(),
    {
        let r = Self { root: Node::Directory(Vec::new()) };
        assert(Node::kids_view(Seq::empty(), 0) =~= Seq::empty());
        assert(Tree::names_of(Seq::empty()) =~= Seq::<Seq<char>>::empty());
        r
    }

    /// Splits `path` into its names.
    pub fn path_parts(path: &str) -> (r: Vec<Vec<char>>)
        ensures
            texts(r@) == segments(path@, '/'),
    {
        let chars = chars_of(path);
        split_segments(chars.as_slice(), '/')
    }

    /// Makes a change named by the last name of `path`.
    fn change(&mut self, path: &str, kind: ChangeKind, data: Vec<u8>, refusal: VfsError) -> (r:
        VfsResult<()>)
        ensures
            match (if segments(path@, '/').len() == 0 {
                Err::<Tree, VfsError>(refusal)
            } else {
                old(self).root.view().edited(
                    segments(path@, '/').drop_last(),
                    Change { kind, name: segments(path@, '/').last(), data: data@ },
                )
            }) {
                Ok(t) => r is Ok && final(self).root.view() == t,
                Err(e) => r == Err::<(), VfsError>(e) && final(self).root.view() == old(self).root.view(),
            },
    {
        let mut parts = Self::path_parts(path);
        let ghost all = texts(parts@);
        let name = match parts.pop() {
            Some(n) => n,
            None => {
                return Err(refusal);
            },
        };
        proof {
            assert(texts(parts@) =~= all.drop_last());
            assert(texts(parts@).subrange(0, parts@.len() as int) =~= texts(parts@));
        }
        edit_tree(&mut self.root, &parts, 0, Edit { kind, name, data })
    }

    /// Stores `data` as the bytes of the file at `path`; when there is no
    /// file at `path`, nothing is stored.
    pub fn store(&mut self, path: &str, data: Vec<u8>)
        ensures
            final(self).root.view() == match (if segments(path@, '/').len() == 0 {
                Err::<Tree, VfsError>(VfsError::NotFound)
            } else {
                old(self).root.view().edited(
                    segments(path@, '/').drop_last(),
                    Change { kind: ChangeKind::Store, name: segments(path@, '/').last(), data: data@ },
                )
            }) {
                Ok(t) => t,
                Err(_) => old(self).root.view(),
            },
            old(self).root.view().sorted() ==> final(self).root.view().sorted(),
    {
        proof {
            if self.root.view().sorted() {
                lemma_stored_sorted(self.root.view(), path@, data@);
            }
        }
        let _ = self.change(path, ChangeKind::Store, data, VfsError::NotFound);
    }
}

impl Filesystem for TmpFs {
    type Handle = TmpFileHandle;

    /// The children of every directory stand in strictly rising order of
    /// their names.
    open spec fn wf(&self) -> bool {
        self.root.view().sorted()
    }

    /// Whether opening `path` with `flags` may give `r` and leave the
    /// filesystem as `after`.
    open spec fn opens(
        &self,
        path: Seq<char>,
        flags: OpenFlags,
        r: VfsResult<TmpFileHandle>,
        after: &Self,
    ) -> bool {
        &&& after.root.view() == open_outcome(self.root.view(), path, flags).1
        &&& match open_outcome(self.root.view(), path, flags).0 {
            Ok(v) => r matches Ok(h) && h.data@ == v.0 && h.position == v.1 && h.path@ == path
                && h.flags == flags,
            Err(e) => r matches Err(f) && f == e,
        }
    }

    /// Whether creating the directory `path` may give `r` and leave the
    /// filesystem as `after`.
    open spec fn makes_dir(&self, path: Seq<char>, r: VfsResult<()>, after: &Self) -> bool {
        &&& match change_outcome(
            self.root.view(),
            path,
            ChangeKind::MakeDir,
            VfsError::AlreadyExists,
        ) {
            Ok(t) => r is Ok && after.root.view() == t,
            Err(e) => r == Err::<(), VfsError>(e) && after.root.view() == self.root.view(),
        }
    }

    /// Whether removing the file `path` may give `r` and leave the
    /// filesystem as `after`.
    open spec fn removes(&self, path: Seq<char>, r: VfsResult<()>, after: &Self) -> bool {
        &&& match change_outcome(
            self.root.view(),
            path,
            ChangeKind::RemoveFile,
            VfsError::PermissionDenied,
        ) {
            Ok(t) => r is Ok && after.root.view() == t,
            Err(e) => r == Err::<(), VfsError>(e) && after.root.view() == self.root.view(),
        }
    }

    /// Whether removing the directory `path` may give `r` and leave the
    /// filesystem as `after`.
    open spec fn removes_dir(&self, path: Seq<char>, r: VfsResult<()>, after: &Self) -> bool {
        &&& match change_outcome(
            self.root.view(),
            path,
            ChangeKind::RemoveDir,
            VfsError::PermissionDenied,
        ) {
            Ok(t) => r is Ok && after.root.view() == t,
            Err(e) => r == Err::<(), VfsError>(e) && after.root.view() == self.root.view(),
        }
    }

    /// Whether listing the directory `path` may give `r`.
    open spec fn lists(&self, path: Seq<char>, r: VfsResult<Vec<DirEntry>>) -> bool {
        &&& match self.root.view().find(segments(path, '/')) {
            Ok(Tree::Dir(kids)) => r matches Ok(list) && listing_view(list@) == Tree::listing(
                kids,
            ),
            Ok(Tree::File(_)) => r matches Err(e) && e == VfsError::NotADirectory,
            Err(e) => r matches Err(f) && f == e,
        }
    }

    /// Whether asking for what is known of `path` may give `r`.
    open spec fn describes(&self, path: Seq<char>, r: VfsResult<Metadata>) -> bool {
        &&& match self.root.view().find(segments(path, '/')) {
            Ok(t) => r == Ok::<Metadata, VfsError>(
                Metadata { file_type: t.file_type(), size: t.size() as usize },
            ),
            Err(e) => r == Err::<Metadata, VfsError>(e),
        }
    }

    /// Opens the file at `path`; with `O_CREAT` a file that is not found
    /// is created empty.
    fn open(&mut self, path: &str, flags: OpenFlags) -> (r: VfsResult<TmpFileHandle>) {
        proof {
            lemma_open_outcome_sorted(self.root.view(), path@, flags);
        }
        let parts = Self::path_parts(path);
        if parts.len() == 0 {
            return Err(VfsError::IsADirectory);
        }
        let found: VfsResult<Option<Vec<u8>>> = match navigate(&self.root, &parts) {
            Ok(node) => match node {
                Node::File(d) => Ok(Some(d.clone())),
                Node::Directory(_) => Ok(None),
            },
            Err(e) => Err(e),
        };
        match found {
            Ok(Some(stored)) => {
                let data: Vec<u8> = if flags.has(O_TRUNC) {
                    Vec::new()
                } else {
                    stored
                };
                let position: usize = if flags.has(O_APPEND) {
                    data.len()
                } else {
                    0
                };
                Ok(TmpFileHandle { data, position, path: path.to_owned(), flags })
            },
            Ok(None) => Err(VfsError::IsADirectory),
            Err(e) => {
                if e == VfsError::NotFound && flags.has(O_CREAT) {
                    match self.change(path, ChangeKind::CreateFile, Vec::new(), VfsError::InvalidPath) {
                        Ok(()) => Ok(
                            TmpFileHandle {
                                data: Vec::new(),
                                position: 0,
                                path: path.to_owned(),
                                flags,
                            },
                        ),
                        Err(f) => Err(f),
                    }
                } else {
                    Err(e)
                }
            },
        }
    }

    /// Creates the directory at `path`.
    fn mkdir(&mut self, path: &str) -> (r: VfsResult<()>) {
        proof {
            lemma_change_outcome_sorted(
                self.root.view(),
                path@,
                ChangeKind::MakeDir,
                VfsError::AlreadyExists,
            );
        }
        self.change(path, ChangeKind::MakeDir, Vec::new(), VfsError::AlreadyExists)
    }

    /// Removes the file at `path`.
    fn remove(&mut self, path: &str) -> (r: VfsResult<()>) {
        proof {
            lemma_change_outcome_sorted(
                self.root.view(),
                path@,
                ChangeKind::RemoveFile,
                VfsError::PermissionDenied,
            );
        }
        self.change(path, ChangeKind::RemoveFile, Vec::new(), VfsError::PermissionDenied)
    }

    /// Removes the empty directory at `path`.
    fn rmdir(&mut self, path: &str) -> (r: VfsResult<()>) {
        proof {
            lemma_change_outcome_sorted(
                self.root.view(),
                path@,
                ChangeKind::RemoveDir,
                VfsError::PermissionDenied,
            );
        }
        self.change(path, ChangeKind::RemoveDir, Vec::new(), VfsError::PermissionDenied)
    }

    /// Lists the directory at `path` in the order of its names.
    fn readdir(&self, path: &str) -> (r: VfsResult<Vec<DirEntry>>) {
        let parts = Self::path_parts(path);
        let node = match navigate(&self.root, &parts) {
            Ok(n) => n,
            Err(e) => {
                return Err(e);
            },
        };
        match node {
            Node::File(_) => Err(VfsError::NotADirectory),
            Node::Directory(kids) => {
                let mut list: Vec<DirEntry> = Vec::new();
                let ghost shown = Node::kids_view(kids@, kids@.len());
                proof {
                    Node::lemma_kids_view(kids@, kids@.len());
                }
                let mut i: usize = 0;
                while i < kids.len()
                    invariant
                        i <= kids@.len(),
                        list@.len() == i,
                        shown == Node::kids_view(kids@, kids@.len()),
                        shown.len() == kids@.len(),
                        forall|k: int|
                            0 <= k < kids@.len() ==> #[trigger] shown[k] == (
                                kids@[k].0@,
                                kids@[k].1.view(),
                            ),
                        forall|k: int|
                            0 <= k < i ==> (#[trigger] list@[k])@ == Tree::listing(shown)[k],
                    decreases kids@.len() - i,
                {
                    let name = string_of(kids[i].0.as_slice());
                    let file_type = kids[i].1.file_type();
                    list.push(DirEntry { name, file_type });
                    i += 1;
                }
                assert(listing_view(list@) =~= Tree::listing(shown));
                Ok(list)
            },
        }
    }

    /// What is known of the node at `path`.
    fn metadata(&self, path: &str) -> (r: VfsResult<Metadata>) {
        let parts = Self::path_parts(path);
        match navigate(&self.root, &parts) {
            Ok(node) => Ok(Metadata { file_type: node.file_type(), size: node.size() }),
            Err(e) => Err(e),
        }
    }
}

impl TmpFileHandle {
    /// Whether reading into a buffer that holds `room` may give `r`, leave the
    /// handle as `after` and the buffer holding `out`.
    pub open spec fn reads(
        &self,
        room: Seq<u8>,
        r: VfsResult<usize>,
        after: &Self,
        out: Seq<u8>,
    ) -> bool {
        &&& out.len() == room.len()
        &&& after.data == self.data
        &&& after.flags == self.flags
        &&& after.path == self.path
        &&& !self.flags.readable() ==> r == Err::<usize, VfsError>(VfsError::PermissionDenied)
            && after.position == self.position && out == room
        &&& self.flags.readable() ==> r == Ok::<usize, VfsError>(
            read_window(self.data@, self.position as int, room.len() as int).len() as usize,
        ) && out.subrange(0, r->Ok_0 as int) == read_window(
            self.data@,
            self.position as int,
            room.len() as int,
        ) && after.position == self.position + r->Ok_0
    }

    /// Reads into the front of `buf`. A handle that was not opened for
    /// reading is refused.
    pub fn read(&mut self, buf: &mut Vec<u8>) -> (r: VfsResult<usize>)
        ensures
            old(self).reads(old(buf)@, r, final(self), final(buf)@),
    {
        if !self.flags.is_readable() {
            return Err(VfsError::PermissionDenied);
        }
        let len: usize = self.data.len();
        let n = read_at(&self.data, self.position, buf);
        self.position = self.position + n;
        Ok(n)
    }

    /// The position at which a write of the handle begins: the end of the
    /// bytes with `O_APPEND`, else the position of the handle.
    pub open spec fn write_start(&self) -> int {
        if self.flags.contains_spec(OpenFlags(O_APPEND)) {
            self.data@.len() as int
        } else {
            self.position as int
        }
    }

    /// Whether writing `bytes` may give `r`, leave the handle as `after` and
    /// the filesystem `fs` as `next`.
    pub open spec fn writes(
        &self,
        fs: &TmpFs,
        bytes: Seq<u8>,
        r: VfsResult<usize>,
        after: &Self,
        next: &TmpFs,
    ) -> bool {
        &&& fs.root.view().sorted() ==> next.root.view().sorted()
        &&& after.flags == self.flags
        &&& after.path == self.path
        &&& !self.flags.writable() ==> r == Err::<usize, VfsError>(VfsError::PermissionDenied)
            && *after == *self && *next == *fs
        &&& self.flags.writable() && self.write_start() + bytes.len() > usize::MAX ==> r
            == Err::<usize, VfsError>(VfsError::NoSpace) && after.data == self.data
            && *next == *fs
        &&& self.flags.writable() && self.write_start() + bytes.len() <= usize::MAX ==> {
            &&& r == Ok::<usize, VfsError>(bytes.len() as usize)
            &&& after.data@ == written(self.data@, self.write_start(), bytes)
            &&& after.position == self.write_start() + bytes.len()
            &&& next.root.view() == match (if segments(self.path@, '/').len() == 0 {
                Err::<Tree, VfsError>(VfsError::NotFound)
            } else {
                fs.root.view().edited(
                    segments(self.path@, '/').drop_last(),
                    Change {
                        kind: ChangeKind::Store,
                        name: segments(self.path@, '/').last(),
                        data: after.data@,
                    },
                )
            }) {
                Ok(t) => t,
                Err(_) => fs.root.view(),
            }
        }
    }

    /// Writes `buf` and stores the bytes of the handle in `fs` at the path
    /// of the handle. A handle that was not opened for writing is refused.
    pub fn write(&mut self, fs: &mut TmpFs, buf: &[u8]) -> (r: VfsResult<usize>)
        ensures
            old(self).writes(old(fs), buf@, r, final(self), final(fs)),
    {
        if !self.flags.is_writable() {
            return Err(VfsError::PermissionDenied);
        }
        let start: usize = if self.flags.has(O_APPEND) {
            self.data.len()
        } else {
            self.position
        };
        if buf.len() > usize::MAX - start {
            return Err(VfsError::NoSpace);
        }
        self.position = start;
        write_at(&mut self.data, start, buf);
        self.position = start + buf.len();
        fs.store(self.path.as_str(), self.data.clone());
        Ok(buf.len())
    }

    /// Whether moving the position by `pos` may give `r` and leave the handle
    /// as `after`.
    pub open spec fn seeks(&self, pos: SeekFrom, r: VfsResult<usize>, after: &Self) -> bool {
        &&& r == if seek_allowed(seek_goal(pos, self.position, self.data@.len() as usize)) {
            Ok::<usize, VfsError>(
                seek_goal(pos, self.position, self.data@.len() as usize) as usize,
            )
        } else {
            Err::<usize, VfsError>(VfsError::InvalidPath)
        }
        &&& r matches Ok(p) ==> after.position == p
        &&& r is Err ==> after.position == self.position
        &&& after.data == self.data
        &&& after.flags == self.flags
        &&& after.path == self.path
    }

    /// Moves the position.
    pub fn seek(&mut self, pos: SeekFrom) -> (r: VfsResult<usize>)
        ensures
            old(self).seeks(pos, r, final(self)),
    {
        match seek_position(pos, self.position, self.data.len()) {
            Ok(p) => {
                self.position = p;
                Ok(p)
            },
            Err(e) => Err(e),
        }
    }

    /// Whether asking for what is known of the file may give `r`.
    pub open spec fn describes(&self, r: VfsResult<Metadata>) -> bool {
        &&& r == Ok::<Metadata, VfsError>(
            Metadata { file_type: FileType::File, size: self.data@.len() as usize },
        )
    }

    /// What is known of the file: its size is that of the handle's bytes.
    pub fn metadata(&self) -> (r: VfsResult<Metadata>)
        ensures
            self.describes(r),
    {
        Ok(Metadata { file_type: FileType::File, size: self.data.len() })
    }
}

/// The position of a name among children is that of the first child
/// with the name.
pub proof fn lemma_index_of(kids: Seq<(Seq<char>, Tree)>, name: Seq<char>)
    ensures
        0 <= Tree::index_of(kids, name) <= kids.len(),
        Tree::index_of(kids, name) < kids.len() ==> kids[Tree::index_of(kids, name)].0 == name,
        forall|j: int| 0 <= j < Tree::index_of(kids, name) ==> (#[trigger] kids[j]).0 != name,
    decreases kids.len(),
{
    if kids.len() > 0 && kids[0].0 != name {
        let rest = kids.drop_first();
        lemma_index_of(rest, name);
        assert forall|j: int| 0 <= j < Tree::index_of(kids, name) implies (#[trigger] kids[j]).0
            != name by {
            if j > 0 {
                assert(rest[j - 1] == kids[j]);
            }
        }
    }
}

/// A position at which a child has the name, with no such child before
/// it, is the position of the name.
pub proof fn lemma_index_found(kids: Seq<(Seq<char>, Tree)>, name: Seq<char>, at: int)
    requires
        0 <= at < kids.len(),
        kids[at].0 == name,
        forall|j: int| 0 <= j < at ==> (#[trigger] kids[j]).0 != name,
    ensures
        Tree::index_of(kids, name) == at,
    decreases kids.len(),
{
    if at > 0 {
        let rest = kids.drop_first();
        assert(kids[0].0 != name);
        assert forall|j: int| 0 <= j < at - 1 implies (#[trigger] rest[j]).0 != name by {
            assert(rest[j] == kids[j + 1]);
        }
        lemma_index_found(rest, name, at - 1);
    }
}

/// The position at which a name is inserted lies among the children.
pub proof fn lemma_insert_at(kids: Seq<(Seq<char>, Tree)>, name: Seq<char>)
    ensures
        0 <= Tree::insert_at(kids, name) <= kids.len(),
    decreases kids.len(),
{
    if kids.len() > 0 && name_less(kids[0].0, name) {
        lemma_insert_at(kids.drop_first(), name);
    }
}

/// Children of which one was replaced by a child of the same name, or
/// among which a child of a new name was inserted, have the name at that
/// position.
pub proof fn lemma_index_kept(
    kids: Seq<(Seq<char>, Tree)>,
    now: Seq<(Seq<char>, Tree)>,
    name: Seq<char>,
    at: int,
)
    requires
        0 <= at < now.len(),
        now[at].0 == name,
        at <= kids.len(),
        forall|j: int| 0 <= j < at ==> now[j] == kids[j],
        at <= Tree::index_of(kids, name),
    ensures
        Tree::index_of(now, name) == at,
{
    lemma_index_of(kids, name);
    assert forall|j: int| 0 <= j < at implies (#[trigger] now[j]).0 != name by {
        assert(kids[j].0 != name);
    }
    lemma_index_found(now, name, at);
}

/// A file that has just been created at `parts` is found there, empty.
pub proof fn lemma_created_is_found(tree: Tree, parts: Seq<Seq<char>>)
    requires
        parts.len() > 0,
        tree.edited(
            parts.drop_last(),
            Change { kind: ChangeKind::CreateFile, name: parts.last(), data: Seq::empty() },
        ) is Ok,
    ensures
        tree.edited(
            parts.drop_last(),
            Change { kind: ChangeKind::CreateFile, name: parts.last(), data: Seq::empty() },
        )->Ok_0.find(parts) == Ok::<Tree, VfsError>(Tree::File(Seq::empty())),
    decreases parts.len(),
{
    let change = Change { kind: ChangeKind::CreateFile, name: parts.last(), data: Seq::empty() };
    let made = (parts.last(), Tree::File(Seq::empty()));
    let rest = parts.drop_first();
    match tree {
        Tree::File(_) => {},
        Tree::Dir(kids) => {
            let i = Tree::index_of(kids, parts[0]);
            lemma_index_of(kids, parts[0]);
            if parts.len() == 1 {
                assert(parts.drop_last() =~= Seq::<Seq<char>>::empty());
                assert(parts[0] == parts.last());
                let at = if i < kids.len() {
                    i
                } else {
                    Tree::insert_at(kids, parts.last())
                };
                lemma_insert_at(kids, parts.last());
                let now = if i < kids.len() {
                    kids.update(i, made)
                } else {
                    kids.insert(at, made)
                };
                assert(Tree::changed(kids, change) == Ok::<Seq<(Seq<char>, Tree)>, VfsError>(now));
                assert(tree.edited(parts.drop_last(), change) == Ok::<Tree, VfsError>(
                    Tree::Dir(now),
                ));
                lemma_index_kept(kids, now, parts[0], at);
                assert(now[at].1.find(rest) == Ok::<Tree, VfsError>(now[at].1));
                assert(Tree::Dir(now).find(parts) == now[at].1.find(rest));
            } else {
                assert(parts.drop_last().drop_first() =~= rest.drop_last());
                assert(parts.drop_last()[0] == parts[0]);
                assert(rest.last() == parts.last());
                assert(kids[i].1.edited(rest.drop_last(), change) is Ok);
                let below = kids[i].1.edited(rest.drop_last(), change)->Ok_0;
                let now = kids.update(i, (kids[i].0, below));
                assert(tree.edited(parts.drop_last(), change) == Ok::<Tree, VfsError>(
                    Tree::Dir(now),
                ));
                lemma_created_is_found(kids[i].1, rest);
                lemma_index_kept(kids, now, parts[0], i);
                assert(Tree::Dir(now).find(parts) == now[i].1.find(rest));
            }
        },
    }
}

/// Bytes can be stored in a file that is found, and the file is then
/// found with those bytes.
pub proof fn lemma_stored_is_found(tree: Tree, parts: Seq<Seq<char>>, data: Seq<u8>)
    requires
        parts.len() > 0,
        tree.find(parts) matches Ok(Tree::File(_)),
    ensures
        tree.edited(
            parts.drop_last(),
            Change { kind: ChangeKind::Store, name: parts.last(), data },
        ) matches Ok(t) && t.find(parts) == Ok::<Tree, VfsError>(Tree::File(data)),
    decreases parts.len(),
{
    let change = Change { kind: ChangeKind::Store, name: parts.last(), data };
    let rest = parts.drop_first();
    match tree {
        Tree::File(_) => {},
        Tree::Dir(kids) => {
            let i = Tree::index_of(kids, parts[0]);
            lemma_index_of(kids, parts[0]);
            assert(0 <= i < kids.len());
            assert(tree.find(parts) == kids[i].1.find(rest));
            if parts.len() == 1 {
                assert(parts.drop_last() =~= Seq::<Seq<char>>::empty());
                assert(parts[0] == parts.last());
                assert(rest =~= Seq::<Seq<char>>::empty());
                assert(kids[i].1.find(rest) == Ok::<Tree, VfsError>(kids[i].1));
                let now = kids.update(i, (parts.last(), Tree::File(data)));
                assert(Tree::changed(kids, change) == Ok::<Seq<(Seq<char>, Tree)>, VfsError>(now));
                assert(tree.edited(parts.drop_last(), change) == Ok::<Tree, VfsError>(
                    Tree::Dir(now),
                ));
                lemma_index_kept(kids, now, parts[0], i);
                assert(now[i].1.find(rest) == Ok::<Tree, VfsError>(now[i].1));
                assert(Tree::Dir(now).find(parts) == now[i].1.find(rest));
            } else {
                assert(parts.drop_last().drop_first() =~= rest.drop_last());
                assert(parts.drop_last()[0] == parts[0]);
                assert(rest.last() == parts.last());
                lemma_stored_is_found(kids[i].1, rest, data);
                let below = kids[i].1.edited(rest.drop_last(), change)->Ok_0;
                let now = kids.update(i, (kids[i].0, below));
                assert(tree.edited(parts.drop_last(), change) == Ok::<Tree, VfsError>(
                    Tree::Dir(now),
                ));
                lemma_index_kept(kids, now, parts[0], i);
                assert(Tree::Dir(now).find(parts) == now[i].1.find(rest));
            }
        },
    }
}

/// What is written to a file that was opened for writing is what a later
/// open for reading finds in it.
///
/// When a file opens with the flags `first`, the bytes `data` are
/// written through the handle, and the file is then opened again with
/// flags `second` that neither truncate nor append, the second handle
/// holds what the first one held after the write, at position 0. When
/// the first handle held no bytes, because the file was new or was
/// truncated, a read of at least as many bytes gives `data`.
pub proof fn lemma_write_then_read(
    tree: Tree,
    path: Seq<char>,
    first: OpenFlags,
    data: Seq<u8>,
    second: OpenFlags,
)
    requires
        open_outcome(tree, path, first).0 is Ok,
        !second.contains_spec(OpenFlags(O_TRUNC)),
        !second.contains_spec(OpenFlags(O_APPEND)),
    ensures
        ({
            let parts = segments(path, '/');
            let held = open_outcome(tree, path, first).0->Ok_0;
            let start = if first.contains_spec(OpenFlags(O_APPEND)) {
                held.0.len() as int
            } else {
                held.1
            };
            let kept = written(held.0, start, data);
            let stored = open_outcome(tree, path, first).1.edited(
                parts.drop_last(),
                Change { kind: ChangeKind::Store, name: parts.last(), data: kept },
            );
            &&& stored is Ok
            &&& open_outcome(stored->Ok_0, path, second) == (
                Ok::<(Seq<u8>, int), VfsError>((kept, 0int)),
                stored->Ok_0,
            )
            &&& held.0.len() == 0 ==> kept == data && read_window(kept, 0, data.len() as int)
                == data
        }),
{
    let parts = segments(path, '/');
    let opened_tree = open_outcome(tree, path, first).1;
    let held = open_outcome(tree, path, first).0->Ok_0;
    let start = if first.contains_spec(OpenFlags(O_APPEND)) {
        held.0.len() as int
    } else {
        held.1
    };
    let kept = written(held.0, start, data);
    if tree.find(parts) is Err {
        lemma_created_is_found(tree, parts);
    }
    lemma_stored_is_found(opened_tree, parts, kept);
    if held.0.len() == 0 {
        assert(kept =~= data);
        assert(read_window(kept, 0, data.len() as int) =~= data);
    }
}

/// A file that is opened empty for writing, written to and opened again
/// for reading reads as it was written.
///
/// When a file that is not there yet, or any file with `O_TRUNC`, opens
/// with flags that allow writing, the write of `data` through the handle
/// takes all of it; a later open with flags that allow reading and
/// neither truncate nor append succeeds; and a read through the second
/// handle into a buffer with room for `data` gives exactly `data`.
pub proof fn lemma_written_file_reads_back(
    fs: &TmpFs,
    created: &TmpFs,
    path: Seq<char>,
    first: OpenFlags,
    h: TmpFileHandle,
    data: Seq<u8>,
    w: VfsResult<usize>,
    kept: TmpFileHandle,
    stored: &TmpFs,
    second: OpenFlags,
    again: VfsResult<TmpFileHandle>,
    reopened: &TmpFs,
)
    requires
        fs.opens(path, first, Ok::<TmpFileHandle, VfsError>(h), created),
        first.contains_spec(OpenFlags(O_TRUNC)) || fs.root.view().find(segments(path, '/')) is Err,
        first.writable(),
        data.len() <= usize::MAX,
        h.writes(created, data, w, &kept, stored),
        second.readable(),
        !second.contains_spec(OpenFlags(O_TRUNC)),
        !second.contains_spec(OpenFlags(O_APPEND)),
        stored.opens(path, second, again, reopened),
    ensures
        w == Ok::<usize, VfsError>(data.len() as usize),
        again is Ok,
        (again->Ok_0).data@ == data,
        (again->Ok_0).position == 0,
        reopened.root.view() == stored.root.view(),
        forall|room: Seq<u8>, r: VfsResult<usize>, after: TmpFileHandle, out: Seq<u8>|
            room.len() >= data.len() && #[trigger] (again->Ok_0).reads(room, r, &after, out) ==> r
                == Ok::<usize, VfsError>(data.len() as usize) && out.subrange(
                0,
                data.len() as int,
            ) == data,
{
    lemma_write_then_read(fs.root.view(), path, first, data, second);
    let held = open_outcome(fs.root.view(), path, first).0->Ok_0;
    assert(held.0 == h.data@);
    assert(written(h.data@, h.write_start(), data) =~= data);
    assert forall|room: Seq<u8>, r: VfsResult<usize>, after: TmpFileHandle, out: Seq<u8>|
        room.len() >= data.len() && #[trigger] (again->Ok_0).reads(room, r, &after, out) implies r
        == Ok::<usize, VfsError>(data.len() as usize) && out.subrange(0, data.len() as int)
        == data by {
        assert(read_window(data, 0, room.len() as int) =~= data);
    }
}

/// The place at which a child is inserted is the place of its name among
/// the names of the children.
pub proof fn lemma_insert_place(kids: Seq<(Seq<char>, Tree)>, name: Seq<char>)
    ensures
        Tree::insert_at(kids, name) == place_of(Tree::names_of(kids), name),
    decreases kids.len(),
{
    if kids.len() > 0 && name_less(kids[0].0, name) {
        lemma_insert_place(kids.drop_first(), name);
        assert(Tree::names_of(kids.drop_first()) =~= Tree::names_of(kids).drop_first());
    }
}

/// A change among the children of a directory whose tree is in order
/// leaves them in order.
pub proof fn lemma_changed_sorted(kids: Seq<(Seq<char>, Tree)>, change: Change)
    requires
        Tree::Dir(kids).sorted(),
        Tree::changed(kids, change) is Ok,
    ensures
        Tree::Dir(Tree::changed(kids, change)->Ok_0).sorted(),
{
    let now = Tree::changed(kids, change)->Ok_0;
    let names = Tree::names_of(kids);
    let i = Tree::index_of(kids, change.name);
    lemma_index_of(kids, change.name);
    let made = match change.kind {
        ChangeKind::MakeDir => Tree::Dir(Seq::empty()),
        ChangeKind::Store => Tree::File(change.data),
        _ => Tree::File(Seq::empty()),
    };
    assert(made.sorted()) by {
        assert(Tree::names_of(Seq::empty()) =~= Seq::<Seq<char>>::empty());
    }
    if 0 <= i < kids.len() {
        match change.kind {
            ChangeKind::RemoveFile | ChangeKind::RemoveDir => {
                assert(now == kids.remove(i));
                assert(Tree::names_of(now) =~= names.remove(i));
                lemma_rising_without(names, i);
                assert forall|k: int| 0 <= k < now.len() implies (#[trigger] now[k]).1.sorted() by {
                    assert(now[k] == kids[if k < i {
                        k
                    } else {
                        k + 1
                    }]);
                }
            },
            _ => {
                assert(now == kids.update(i, (change.name, made)));
                assert(Tree::names_of(now) =~= names);
                assert forall|k: int| 0 <= k < now.len() implies (#[trigger] now[k]).1.sorted() by {
                    if k != i {
                        assert(now[k] == kids[k]);
                    }
                }
            },
        }
    } else {
        let at = Tree::insert_at(kids, change.name);
        lemma_insert_place(kids, change.name);
        assert(!names.contains(change.name)) by {
            if names.contains(change.name) {
                let k = choose|k: int| 0 <= k < names.len() && names[k] == change.name;
                assert(kids[k].0 == change.name);
            }
        }
        lemma_rising_with(names, change.name);
        assert(now == kids.insert(at, (change.name, made)));
        assert(Tree::names_of(now) =~= names.insert(at, change.name));
        assert forall|k: int| 0 <= k < now.len() implies (#[trigger] now[k]).1.sorted() by {
            if k < at {
                assert(now[k] == kids[k]);
            } else if k > at {
                assert(now[k] == kids[k - 1]);
            }
        }
    }
}

/// A change in a tree that is in order leaves the tree in order.
pub proof fn lemma_edited_sorted(tree: Tree, parts: Seq<Seq<char>>, change: Change)
    requires
        tree.sorted(),
        tree.edited(parts, change) is Ok,
    ensures
        (tree.edited(parts, change)->Ok_0).sorted(),
    decreases parts.len(),
{
    match tree {
        Tree::File(_) => {},
        Tree::Dir(kids) => {
            if parts.len() == 0 {
                lemma_changed_sorted(kids, change);
            } else {
                let i = Tree::index_of(kids, parts[0]);
                lemma_index_of(kids, parts[0]);
                let below = kids[i].1.edited(parts.drop_first(), change)->Ok_0;
                lemma_edited_sorted(kids[i].1, parts.drop_first(), change);
                let now = kids.update(i, (kids[i].0, below));
                assert(Tree::names_of(now) =~= Tree::names_of(kids));
                assert forall|k: int| 0 <= k < now.len() implies (#[trigger] now[k]).1.sorted() by {
                    if k != i {
                        assert(now[k] == kids[k]);
                    }
                }
            }
        },
    }
}

/// A change named by a path leaves a tree that is in order in order.
pub proof fn lemma_change_outcome_sorted(
    tree: Tree,
    path: Seq<char>,
    kind: ChangeKind,
    refusal: VfsError,
)
    requires
        tree.sorted(),
    ensures
        change_outcome(tree, path, kind, refusal) matches Ok(t) ==> t.sorted(),
{
    let parts = segments(path, '/');
    if parts.len() > 0 {
        let change = Change { kind, name: parts.last(), data: Seq::empty() };
        if tree.edited(parts.drop_last(), change) is Ok {
            lemma_edited_sorted(tree, parts.drop_last(), change);
        }
    }
}

/// Opening a file leaves a tree that is in order in order.
pub proof fn lemma_open_outcome_sorted(tree: Tree, path: Seq<char>, flags: OpenFlags)
    requires
        tree.sorted(),
    ensures
        open_outcome(tree, path, flags).1.sorted(),
{
    let parts = segments(path, '/');
    if parts.len() > 0 {
        let change = Change { kind: ChangeKind::CreateFile, name: parts.last(), data: Seq::empty() };
        if tree.edited(parts.drop_last(), change) is Ok {
            lemma_edited_sorted(tree, parts.drop_last(), change);
        }
    }
}

/// Storing the bytes of a file leaves a tree that is in order in order.
pub proof fn lemma_stored_sorted(tree: Tree, path: Seq<char>, data: Seq<u8>)
    requires
        tree.sorted(),
    ensures
        tree.edited(
            segments(path, '/').drop_last(),
            Change { kind: ChangeKind::Store, name: segments(path, '/').last(), data },
        ) matches Ok(t) ==> t.sorted(),
{
    let parts = segments(path, '/');
    let change = Change { kind: ChangeKind::Store, name: parts.last(), data };
    if tree.edited(parts.drop_last(), change) is Ok {
        lemma_edited_sorted(tree, parts.drop_last(), change);
    }
}

} // verus!
