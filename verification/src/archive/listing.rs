//! What a listing of an archive shows, from the entries that were added to it.

use vstd::prelude::*;

use crate::archive::index::{self, EntryKind, Folder, Item, Tree};
use crate::archive::laws;
use crate::archive::names;
use crate::error::Error;
use crate::path;

verus! {

/// The tree of an archive with the first `n` of the entries `es`, added in order.
pub open spec fn built(es: Seq<Item>, n: int) -> Tree
    decreases n,
{
    if n <= 0 {
        Tree::empty()
    } else {
        built(es, n - 1).pushed(es[n - 1])
    }
}

/// Whether the path with the components `q` is an ancestor of the one with the
/// components `cs`.
pub open spec fn above(q: Seq<Seq<char>>, cs: Seq<Seq<char>>) -> bool {
    q.len() < cs.len() && cs.take(q.len() as int) == q
}

/// Whether the entry `e` makes the path with the components `q` a directory: it
/// is one there, or lies below it.
pub open spec fn makes_dir(e: Item, q: Seq<Seq<char>>) -> bool {
    let cs = path::parts(e.path);
    above(q, cs) || (e.kind == EntryKind::Dir && cs.len() > 0 && cs == q)
}

/// Whether the path with the components `q` is a directory of an archive with the
/// first `n` of the entries `es`: the root, a directory that was added, or an
/// ancestor of something that was.
pub open spec fn is_dir(es: Seq<Item>, n: int, q: Seq<Seq<char>>) -> bool {
    q.len() == 0 || exists|k: int| 0 <= k < n && makes_dir(#[trigger] es[k], q)
}

/// The names `s`, with `n` at their end where it is new.
pub open spec fn noted(s: Seq<Seq<char>>, n: Seq<char>) -> Seq<Seq<char>> {
    if s.contains(n) {
        s
    } else {
        s.push(n)
    }
}

/// The names directly below the path with the components `q` among the first `n`
/// of the entries `es`, each once, in the order in which they first came.
pub open spec fn below(es: Seq<Item>, n: int, q: Seq<Seq<char>>) -> Seq<Seq<char>>
    decreases n,
{
    if n <= 0 {
        Seq::empty()
    } else {
        let cs = path::parts(es[n - 1].path);
        if above(q, cs) {
            noted(below(es, n - 1, q), cs[q.len() as int])
        } else {
            below(es, n - 1, q)
        }
    }
}

/// The names in the directory at the path `p`, if there is one.
spec fn names_in(s: Seq<Folder>, p: Seq<char>) -> Option<Seq<Seq<char>>> {
    match index::dir_at(s, p, 0) {
        Some(i) => Some(s[i].names),
        None => None,
    }
}

/// The names, or none.
spec fn or_none(s: Option<Seq<Seq<char>>>) -> Seq<Seq<char>> {
    match s {
        Some(x) => x,
        None => Seq::empty(),
    }
}

proof fn lemma_dir_at(s: Seq<Folder>, p: Seq<char>, i: int)
    requires
        0 <= i <= s.len(),
    ensures
        index::dir_at(s, p, i) matches Some(k) ==> i <= k < s.len() && s[k].path == p,
    decreases s.len() - i,
{
    if i < s.len() && s[i].path != p {
        lemma_dir_at(s, p, i + 1);
    }
}

/// A directory at the end is found where there is none before it.
proof fn lemma_dir_at_push(s: Seq<Folder>, f: Folder, p: Seq<char>, i: int)
    requires
        0 <= i <= s.len(),
    ensures
        index::dir_at(s.push(f), p, i) == match index::dir_at(s, p, i) {
            Some(k) => Some(k),
            None => if f.path == p {
                Some(s.len() as int)
            } else {
                None
            },
        },
    decreases s.len() - i,
{
    if i < s.len() {
        if s[i].path != p {
            lemma_dir_at_push(s, f, p, i + 1);
        }
    } else {
        assert(index::dir_at(s.push(f), p, i + 1) is None);
    }
}

/// Where a directory is found depends on the paths alone.
proof fn lemma_dir_at_same(s: Seq<Folder>, t: Seq<Folder>, p: Seq<char>, i: int)
    requires
        s.len() == t.len(),
        forall|k: int| 0 <= k < s.len() ==> (#[trigger] s[k]).path == t[k].path,
        0 <= i <= s.len(),
    ensures
        index::dir_at(t, p, i) == index::dir_at(s, p, i),
    decreases s.len() - i,
{
    if i < s.len() {
        assert(s[i].path == t[i].path);
        lemma_dir_at_same(s, t, p, i + 1);
    }
}

proof fn lemma_with_dir(s: Seq<Folder>, p: Seq<char>, q: Seq<char>)
    ensures
        names_in(index::with_dir(s, p), q) == if q == p {
            Some(or_none(names_in(s, p)))
        } else {
            names_in(s, q)
        },
        index::dir_at(index::with_dir(s, p), p, 0) is Some,
{
    let f = Folder { path: p, names: Seq::empty() };
    lemma_dir_at(s, q, 0);
    lemma_dir_at_push(s, f, q, 0);
    lemma_dir_at_push(s, f, p, 0);
}

proof fn lemma_with_name(s: Seq<Folder>, p: Seq<char>, n: Seq<char>, q: Seq<char>)
    ensures
        names_in(index::with_name(s, p, n), q) == if q == p {
            Some(noted(or_none(names_in(s, p)), n))
        } else {
            names_in(s, q)
        },
{
    let t = index::with_dir(s, p);
    let i = index::dir_at(t, p, 0).unwrap();
    lemma_with_dir(s, p, p);
    lemma_with_dir(s, p, q);
    lemma_dir_at(t, p, 0);
    lemma_dir_at(t, q, 0);
    if !t[i].names.contains(n) {
        let u = t.update(i, Folder { path: p, names: t[i].names.push(n) });
        lemma_dir_at_same(t, u, q, 0);
    }
}

/// Components that differ make different paths.
proof fn lemma_joined_apart(a: Seq<Seq<char>>, b: Seq<Seq<char>>)
    requires
        laws::are_parts(a),
        laws::are_parts(b),
    ensures
        names::joined(a) == names::joined(b) <==> a == b,
{
    laws::lemma_parts_joined(a);
    laws::lemma_parts_joined(b);
}

/// The names at the path with the components `q` once the first `i` components of
/// `cs` were registered, where they were `s` before.
spec fn after(
    s: Option<Seq<Seq<char>>>,
    q: Seq<Seq<char>>,
    cs: Seq<Seq<char>>,
    i: int,
) -> Option<Seq<Seq<char>>> {
    if q.len() < i && cs.take(q.len() as int) == q {
        Some(noted(or_none(s), cs[q.len() as int]))
    } else if 0 < i < cs.len() && cs.take(i) == q {
        Some(or_none(s))
    } else {
        s
    }
}

proof fn lemma_registered(s: Seq<Folder>, cs: Seq<Seq<char>>, i: int, q: Seq<Seq<char>>)
    requires
        laws::are_parts(cs),
        laws::are_parts(q),
        0 <= i <= cs.len(),
    ensures
        names_in(index::registered(s, cs, i), names::joined(q)) == after(
            names_in(s, names::joined(q)),
            q,
            cs,
            i,
        ),
    decreases i,
{
    if i > 0 {
        lemma_registered(s, cs, i - 1, q);
        let a = index::registered(s, cs, i - 1);
        let up = cs.take(i - 1);
        let here = cs.take(i);
        let b = index::with_name(a, names::joined(up), cs[i - 1]);
        assert(laws::are_parts(up));
        assert(laws::are_parts(here));
        lemma_joined_apart(q, up);
        lemma_joined_apart(q, here);
        lemma_with_name(a, names::joined(up), cs[i - 1], names::joined(q));
        lemma_with_dir(b, names::joined(here), names::joined(q));
        if q.len() < cs.len() && q == cs.take(q.len() as int) {
            assert(cs.take(q.len() as int).len() == q.len());
        }
    }
}

proof fn lemma_pushed(t: Tree, e: Item, q: Seq<Seq<char>>)
    requires
        laws::are_parts(q),
    ensures
        ({
            let cs = path::parts(e.path);
            let s = names_in(t.dirs, names::joined(q));
            names_in(t.pushed(e).dirs, names::joined(q)) == if above(q, cs) {
                Some(noted(or_none(s), cs[q.len() as int]))
            } else if makes_dir(e, q) {
                Some(or_none(s))
            } else {
                s
            }
        }),
{
    reveal(Tree::pushed);
    let cs = path::parts(e.path);
    let n = cs.len() as int;
    laws::lemma_parts_are(e.path);
    if n > 0 {
        lemma_registered(t.dirs, cs, n, q);
        let d = index::registered(t.dirs, cs, n);
        lemma_with_dir(d, names::joined(cs), names::joined(q));
        lemma_joined_apart(q, cs);
    }
}

proof fn lemma_built(es: Seq<Item>, n: int, q: Seq<Seq<char>>)
    requires
        laws::are_parts(q),
        0 <= n <= es.len(),
    ensures
        names_in(built(es, n).dirs, names::joined(q)) == if is_dir(es, n, q) {
            Some(below(es, n, q))
        } else {
            None
        },
        !is_dir(es, n, q) ==> below(es, n, q) == Seq::<Seq<char>>::empty(),
    decreases n,
{
    if n == 0 {
        let root: Seq<Seq<char>> = Seq::empty();
        assert(laws::are_parts(root));
        lemma_joined_apart(q, root);
        assert(names::joined(root) == seq!['/']);
        assert(q.len() == 0 ==> q =~= root);
        let s = Tree::empty().dirs;
        assert(s[0].path == seq!['/']);
        if q.len() > 0 {
            assert(index::dir_at(s, names::joined(q), 1) is None);
        }
    } else {
        lemma_built(es, n - 1, q);
        lemma_pushed(built(es, n - 1), es[n - 1], q);
        if makes_dir(es[n - 1], q) {
            assert(is_dir(es, n, q));
        }
        if is_dir(es, n - 1, q) {
            assert(is_dir(es, n, q));
        }
    }
}

/// Listing an archive: a path can be listed just where it is the root, a
/// directory that was added or an ancestor of something that was added; and the
/// listing shows just the names directly below it, in the order in which they
/// first came.
pub proof fn lemma_listing(es: Seq<Item>, p: Seq<char>)
    ensures
        ({
            let n = es.len() as int;
            let q = path::parts(p);
            let t = built(es, n);
            match t.listed(p) {
                Ok(v) => {
                    &&& is_dir(es, n, q)
                    &&& v.len() == below(es, n, q).len()
                    &&& forall|k: int|
                        0 <= k < v.len() ==> #[trigger] v[k] == t.shown(
                            names::normal(p),
                            below(es, n, q)[k],
                        )
                },
                Err(e) => !is_dir(es, n, q) && e == Error::InvalidArgument,
            }
        }),
{
    laws::lemma_parts_are(p);
    lemma_built(es, es.len() as int, path::parts(p));
}

} // verus!
