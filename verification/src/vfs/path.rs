//! Path normalisation: absolute paths without empty, `.` or `..` names.

use vstd::prelude::*;
use crate::text::{
    chars_of, lemma_segments, segments, segments_from, split_segments, string_of, texts,
};

verus! {

/// The name `.`.
pub open spec fn dot() -> Seq<char> {
    seq!['.']
}

/// The name `..`.
pub open spec fn dotdot() -> Seq<char> {
    seq!['.', '.']
}

/// The names that remain of `parts` after `acc`: `.` is dropped, `..`
/// drops the name before it when there is one, any other name is kept.
pub open spec fn fold_names(parts: Seq<Seq<char>>, acc: Seq<Seq<char>>) -> Seq<Seq<char>>
    decreases parts.len(),
{
    if parts.len() == 0 {
        acc
    } else {
        let p = parts[0];
        let next = if p == dot() {
            acc
        } else if p == dotdot() {
            if acc.len() > 0 {
                acc.drop_last()
            } else {
                acc
            }
        } else {
            acc.push(p)
        };
        fold_names(parts.drop_first(), next)
    }
}

/// The names of `parts`, each with a `/` before it.
pub open spec fn join_names(parts: Seq<Seq<char>>) -> Seq<char>
    decreases parts.len(),
{
    if parts.len() == 0 {
        Seq::empty()
    } else {
        seq!['/'].add(parts[0]).add(join_names(parts.drop_first()))
    }
}

/// The path made of the names `names`: `/` alone when there is no name.
pub open spec fn path_of(names: Seq<Seq<char>>) -> Seq<char> {
    if names.len() == 0 {
        seq!['/']
    } else {
        join_names(names)
    }
}

/// The names of the normal form of `path`.
pub open spec fn normal_names(path: Seq<char>) -> Seq<Seq<char>> {
    fold_names(segments(path, '/'), Seq::empty())
}

/// The normal form of `path`.
pub open spec fn normalized(path: Seq<char>) -> Seq<char> {
    path_of(normal_names(path))
}

/// The absolute normal form of `path` for a task whose working directory
/// is `cwd`: a path that begins with `/` is normalised as it is, any
/// other path after the working directory and a `/`.
pub open spec fn resolved_path(path: Seq<char>, cwd: Seq<char>) -> Seq<char> {
    if path.len() > 0 && path[0] == '/' {
        normalized(path)
    } else if cwd.len() > 0 && cwd.last() == '/' {
        normalized(cwd.add(path))
    } else {
        normalized(cwd.push('/').add(path))
    }
}

/// Whether every name is a proper name: not empty, without `/`, and
/// neither `.` nor `..`.
pub open spec fn proper_names(names: Seq<Seq<char>>) -> bool {
    forall|i: int|
        0 <= i < names.len() ==> (#[trigger] names[i]).len() > 0 && !names[i].contains('/')
            && names[i] != dot() && names[i] != dotdot()
}

/// Folding names that are not empty and hold no `/` onto proper names
/// gives proper names.
pub proof fn lemma_fold_names(parts: Seq<Seq<char>>, acc: Seq<Seq<char>>)
    requires
        proper_names(acc),
        forall|i: int| 0 <= i < parts.len() ==> (#[trigger] parts[i]).len() > 0 && !parts[i].contains('/'),
    ensures
        proper_names(fold_names(parts, acc)),
    decreases parts.len(),
{
    if parts.len() > 0 {
        let p = parts[0];
        let next = if p == dot() {
            acc
        } else if p == dotdot() {
            if acc.len() > 0 {
                acc.drop_last()
            } else {
                acc
            }
        } else {
            acc.push(p)
        };
        assert(proper_names(next)) by {
            assert forall|i: int| 0 <= i < next.len() implies (#[trigger] next[i]).len() > 0
                && !next[i].contains('/') && next[i] != dot() && next[i] != dotdot() by {
                if i < acc.len() {
                    assert(next[i] == acc[i]);
                }
            }
        }
        assert forall|i: int| 0 <= i < parts.drop_first().len() implies (
        #[trigger] parts.drop_first()[i]).len() > 0 && !parts.drop_first()[i].contains('/') by {
            assert(parts.drop_first()[i] == parts[i + 1]);
        }
        lemma_fold_names(parts.drop_first(), next);
    }
}

/// Proper names fold onto themselves.
pub proof fn lemma_fold_proper(parts: Seq<Seq<char>>, acc: Seq<Seq<char>>)
    requires
        proper_names(parts),
    ensures
        fold_names(parts, acc) == acc.add(parts),
    decreases parts.len(),
{
    if parts.len() == 0 {
        assert(acc.add(parts) =~= acc);
    } else {
        let rest = parts.drop_first();
        assert forall|i: int| 0 <= i < rest.len() implies (#[trigger] rest[i]).len() > 0
            && !rest[i].contains('/') && rest[i] != dot() && rest[i] != dotdot() by {
            assert(rest[i] == parts[i + 1]);
        }
        lemma_fold_proper(rest, acc.push(parts[0]));
        assert(acc.push(parts[0]).add(rest) =~= acc.add(parts));
    }
}

/// Characters without a separator only lengthen the piece being read.
pub proof fn lemma_segments_piece(t: Seq<char>, rest: Seq<char>, sep: char, cur: Seq<char>)
    requires
        !t.contains(sep),
    ensures
        segments_from(t.add(rest), sep, cur) == segments_from(rest, sep, cur.add(t)),
    decreases t.len(),
{
    if t.len() == 0 {
        assert(t.add(rest) =~= rest);
        assert(cur.add(t) =~= cur);
    } else {
        let s = t.add(rest);
        assert(s[0] == t[0]);
        assert(t.contains(t[0]));
        assert(s.drop_first() =~= t.drop_first().add(rest));
        assert(!t.drop_first().contains(sep)) by {
            if t.drop_first().contains(sep) {
                let k = choose|k: int| 0 <= k < t.drop_first().len() && t.drop_first()[k] == sep;
                assert(t[k + 1] == sep);
            }
        }
        lemma_segments_piece(t.drop_first(), rest, sep, cur.push(t[0]));
        assert(cur.push(t[0]).add(t.drop_first()) =~= cur.add(t));
    }
}

/// The pieces of joined names are the names.
pub proof fn lemma_segments_of_join(names: Seq<Seq<char>>)
    requires
        forall|i: int|
            0 <= i < names.len() ==> (#[trigger] names[i]).len() > 0 && !names[i].contains('/'),
    ensures
        segments(join_names(names), '/') == names,
    decreases names.len(),
{
    if names.len() == 0 {
        assert(segments(join_names(names), '/') =~= names);
    } else {
        let rest = names.drop_first();
        let tail = join_names(rest);
        let whole = join_names(names);
        assert forall|i: int| 0 <= i < rest.len() implies (#[trigger] rest[i]).len() > 0
            && !rest[i].contains('/') by {
            assert(rest[i] == names[i + 1]);
        }
        lemma_segments_of_join(rest);
        assert(whole[0] == '/');
        assert(whole.drop_first() =~= names[0].add(tail));
        lemma_segments_piece(names[0], tail, '/', Seq::empty());
        assert(Seq::<char>::empty().add(names[0]) =~= names[0]);
        // After the first name the rest begins with a separator or is over.
        if rest.len() == 0 {
            assert(tail =~= Seq::<char>::empty());
            assert(segments_from(tail, '/', names[0]) =~= seq![names[0]]);
        } else {
            assert(tail[0] == '/');
            assert(tail.drop_first() =~= rest[0].add(join_names(rest.drop_first())));
            assert(segments_from(tail, '/', Seq::empty()) == segments_from(
                tail.drop_first(),
                '/',
                Seq::empty(),
            )) by {
                assert(Seq::<Seq<char>>::empty().add(
                    segments_from(tail.drop_first(), '/', Seq::empty()),
                ) =~= segments_from(tail.drop_first(), '/', Seq::empty()));
            }
            assert(segments_from(tail, '/', names[0]) == seq![names[0]].add(
                segments_from(tail.drop_first(), '/', Seq::empty()),
            ));
        }
        assert(segments(whole, '/') == segments_from(whole.drop_first(), '/', Seq::empty())) by {
            assert(Seq::<Seq<char>>::empty().add(
                segments_from(whole.drop_first(), '/', Seq::empty()),
            ) =~= segments_from(whole.drop_first(), '/', Seq::empty()));
        }
        assert(seq![names[0]].add(rest) =~= names);
    }
}

/// The pieces of a path made of names are the names.
pub proof fn lemma_segments_of_path(names: Seq<Seq<char>>)
    requires
        forall|i: int|
            0 <= i < names.len() ==> (#[trigger] names[i]).len() > 0 && !names[i].contains('/'),
    ensures
        segments(path_of(names), '/') == names,
{
    if names.len() == 0 {
        let p = seq!['/'];
        let none = Seq::<char>::empty();
        assert(p[0] == '/');
        assert(p.drop_first() =~= none);
        assert(segments_from(none, '/', none) =~= Seq::<Seq<char>>::empty());
        assert(segments_from(p, '/', none) == Seq::<Seq<char>>::empty().add(
            segments_from(p.drop_first(), '/', none),
        ));
        assert(segments(p, '/') =~= names);
    } else {
        lemma_segments_of_join(names);
    }
}

/// Joined names begin with `/` when there is a name, and never hold two
/// `/` in a row or end with one.
pub proof fn lemma_join_shape(names: Seq<Seq<char>>)
    requires
        forall|i: int|
            0 <= i < names.len() ==> (#[trigger] names[i]).len() > 0 && !names[i].contains('/'),
    ensures
        names.len() > 0 ==> join_names(names).len() > 1 && join_names(names)[0] == '/',
        names.len() > 0 ==> join_names(names).last() != '/',
        forall|i: int|
            0 <= i < join_names(names).len() - 1 ==> !(#[trigger] join_names(names)[i] == '/'
                && join_names(names)[i + 1] == '/'),
    decreases names.len(),
{
    if names.len() > 0 {
        let rest = names.drop_first();
        assert forall|i: int| 0 <= i < rest.len() implies (#[trigger] rest[i]).len() > 0
            && !rest[i].contains('/') by {
            assert(rest[i] == names[i + 1]);
        }
        lemma_join_shape(rest);
        let tail = join_names(rest);
        let whole = join_names(names);
        let first = names[0];
        assert(whole =~= seq!['/'].add(first).add(tail));
        assert forall|i: int| 0 <= i < whole.len() - 1 implies !(#[trigger] whole[i] == '/'
            && whole[i + 1] == '/') by {
            if i == 0 {
                assert(whole[1] == first[0]);
                assert(first.contains(first[0]));
            } else if i < first.len() {
                assert(whole[i] == first[i - 1]);
                assert(first.contains(first[i - 1]));
            } else if i == first.len() {
                assert(whole[i] == first[i - 1]);
                assert(first.contains(first[i - 1]));
            } else {
                assert(whole[i] == tail[i - 1 - first.len()]);
                assert(whole[i + 1] == tail[i - first.len()]);
            }
        }
        if rest.len() == 0 {
            assert(tail =~= Seq::<char>::empty());
            assert(whole.last() == first.last());
            assert(first.contains(first.last()));
        } else {
            assert(whole.last() == tail.last());
        }
    }
}

/// A normal form begins with `/`, holds no two `/` in a row, and its
/// names are neither empty nor `.` nor `..`.
pub proof fn lemma_normalized_shape(path: Seq<char>)
    ensures
        normalized(path).len() > 0,
        normalized(path)[0] == '/',
        forall|i: int|
            0 <= i < normalized(path).len() - 1 ==> !(#[trigger] normalized(path)[i] == '/'
                && normalized(path)[i + 1] == '/'),
        segments(normalized(path), '/') == normal_names(path),
        proper_names(normal_names(path)),
{
    lemma_segments(path, '/');
    lemma_fold_names(segments(path, '/'), Seq::empty());
    let names = normal_names(path);
    lemma_join_shape(names);
    lemma_segments_of_path(names);
}

/// Normalising a normal form changes nothing.
pub proof fn lemma_normalized_twice(path: Seq<char>)
    ensures
        normalized(normalized(path)) == normalized(path),
{
    lemma_normalized_shape(path);
    lemma_fold_proper(normal_names(path), Seq::empty());
    assert(Seq::<Seq<char>>::empty().add(normal_names(path)) =~= normal_names(path));
}

/// Resolving a resolved path, for the same working directory, changes nothing.
pub proof fn lemma_resolve_path_idempotent(path: Seq<char>, cwd: Seq<char>)
    ensures
        resolved_path(resolved_path(path, cwd), cwd) == resolved_path(path, cwd),
{
    if path.len() > 0 && path[0] == '/' {
        lemma_normalized_shape(path);
        lemma_normalized_twice(path);
    } else if cwd.len() > 0 && cwd.last() == '/' {
        lemma_normalized_shape(cwd.add(path));
        lemma_normalized_twice(cwd.add(path));
    } else {
        lemma_normalized_shape(cwd.push('/').add(path));
        lemma_normalized_twice(cwd.push('/').add(path));
    }
}

/// Joins names into the characters of a path.
pub fn join_path(names: &Vec<Vec<char>>) -> (r: Vec<char>)
    ensures
        r@ == path_of(texts(names@)),
{
    let mut out: Vec<char> = Vec::new();
    let n: usize = names.len();
    if n == 0 {
        out.push('/');
        assert(out@ =~= seq!['/']);
        return out;
    }
    let ghost all = texts(names@);
    let mut i: usize = 0;
    proof {
        assert(all.subrange(0, n as int) =~= all);
        assert(out@.add(join_names(all)) =~= join_names(all));
    }
    while i < n
        invariant
            i <= n,
            n == names@.len(),
            all == texts(names@),
            out@.add(join_names(all.subrange(i as int, n as int))) == join_names(all),
        decreases n - i,
    {
        let ghost before = out@;
        let ghost rest = all.subrange(i as int, n as int);
        out.push('/');
        let name = &names[i];
        let mut k: usize = 0;
        while k < name.len()
            invariant
                k <= name@.len(),
                out@ == before.push('/').add(name@.subrange(0, k as int)),
            decreases name@.len() - k,
        {
            out.push(name[k]);
            k += 1;
            assert(out@ =~= before.push('/').add(name@.subrange(0, k as int)));
        }
        proof {
            assert(name@.subrange(0, name@.len() as int) =~= name@);
            assert(rest[0] == name@);
            assert(rest.drop_first() =~= all.subrange(i + 1, n as int));
            assert(before.push('/').add(name@).add(join_names(rest.drop_first())) =~= before.add(
                seq!['/'].add(name@).add(join_names(rest.drop_first())),
            ));
        }
        i += 1;
    }
    proof {
        assert(all.subrange(n as int, n as int) =~= Seq::<Seq<char>>::empty());
        assert(out@.add(Seq::<char>::empty()) =~= out@);
    }
    out
}

/// Whether `name` is exactly the characters `text`.
fn name_is(name: &Vec<char>, text: &[char]) -> (r: bool)
    ensures
        r == (name@ == text@),
{
    crate::text::chars_eq(name.as_slice(), text)
}

/// The normal form of the characters `path`.
pub fn normalize_chars(path: &[char]) -> (r: Vec<char>)
    ensures
        r@ == normalized(path@),
{
    let pieces = split_segments(path, '/');
    let mut parts: Vec<Vec<char>> = Vec::new();
    let n: usize = pieces.len();
    let ghost all = texts(pieces@);
    let one: [char; 1] = ['.'];
    let two: [char; 2] = ['.', '.'];
    let mut i: usize = 0;
    proof {
        assert(all.subrange(0, n as int) =~= all);
        assert(texts(parts@) =~= Seq::<Seq<char>>::empty());
        assert(one@ =~= dot());
        assert(two@ =~= dotdot());
    }
    while i < n
        invariant
            i <= n,
            n == pieces@.len(),
            all == texts(pieces@),
            all == segments(path@, '/'),
            one@ == dot(),
            two@ == dotdot(),
            fold_names(all.subrange(i as int, n as int), texts(parts@)) == normal_names(path@),
        decreases n - i,
    {
        let ghost rest = all.subrange(i as int, n as int);
        let ghost acc = texts(parts@);
        proof {
            assert(rest[0] == pieces@[i as int]@);
            assert(rest.drop_first() =~= all.subrange(i + 1, n as int));
        }
        if name_is(&pieces[i], one.as_slice()) {
        } else if name_is(&pieces[i], two.as_slice()) {
            if parts.len() > 0 {
                parts.pop();
                assert(texts(parts@) =~= acc.drop_last());
            }
        } else {
            parts.push(pieces[i].clone());
            assert(texts(parts@) =~= acc.push(pieces@[i as int]@));
        }
        i += 1;
    }
    join_path(&parts)
}

/// The normal form of `path`: an absolute path whose names are those of
/// `path` without the empty ones and `.`, and with each `..` taking back
/// the name before it.
pub fn normalize_path(path: &str) -> (r: String)
    ensures
        r@ == normalized(path@),
{
    let chars = chars_of(path);
    let out = normalize_chars(chars.as_slice());
    string_of(out.as_slice())
}

/// The absolute normal form of `path` for a task whose working directory
/// is `cwd`.
pub fn resolve_path(path: &str, cwd: &str) -> (r: String)
    ensures
        r@ == resolved_path(path@, cwd@),
{
    let p = chars_of(path);
    if p.len() > 0 && p[0] == '/' {
        let out = normalize_chars(p.as_slice());
        return string_of(out.as_slice());
    }
    let mut full = chars_of(cwd);
    let ghost base = full@;
    if !(full.len() > 0 && full[full.len() - 1] == '/') {
        full.push('/');
    }
    let ghost head = full@;
    let mut i: usize = 0;
    while i < p.len()
        invariant
            i <= p@.len(),
            full@ == head.add(p@.subrange(0, i as int)),
        decreases p@.len() - i,
    {
        full.push(p[i]);
        i += 1;
        assert(full@ =~= head.add(p@.subrange(0, i as int)));
    }
    assert(p@.subrange(0, p@.len() as int) =~= p@);
    let out = normalize_chars(full.as_slice());
    string_of(out.as_slice())
}

} // verus!
