//! What holds of every archive tree.

use vstd::prelude::*;

use crate::archive::index::{self, EntryKind, Folder, Item, Tree};
use crate::archive::names;
use crate::path;

verus! {

/// Whether a path component holds no slash and names something.
pub open spec fn is_part(p: Seq<char>) -> bool {
    path::counts(p) && forall|i: int| 0 <= i < p.len() ==> p[i] != '/'
}

/// Whether all of `ps` are path components.
pub open spec fn are_parts(ps: Seq<Seq<char>>) -> bool {
    forall|i: int| 0 <= i < ps.len() ==> is_part(#[trigger] ps[i])
}

proof fn lemma_next_slash_is(s: Seq<char>, from: int, e: int)
    requires
        0 <= from <= e <= s.len(),
        e < s.len() ==> s[e] == '/',
        forall|i: int| from <= i < e ==> s[i] != '/',
    ensures
        path::next_slash(s, from) == e,
{
    path::lemma_next_slash(s, from);
}

proof fn lemma_parts_are_from(s: Seq<char>, from: int)
    requires
        0 <= from,
    ensures
        are_parts(path::parts_from(s, from)),
    decreases s.len() + 1 - from,
{
    if from <= s.len() {
        path::lemma_next_slash(s, from);
        let e = path::next_slash(s, from);
        lemma_parts_are_from(s, e + 1);
        let head = s.subrange(from, e);
        assert forall|i: int| 0 <= i < head.len() implies head[i] != '/' by {
            assert(head[i] == s[from + i]);
        }
        let rest = path::parts_from(s, e + 1);
        if path::counts(head) {
            assert forall|i: int| 0 <= i < (seq![head] + rest).len() implies is_part(
                #[trigger] (seq![head] + rest)[i],
            ) by {
                if i > 0 {
                    assert((seq![head] + rest)[i] == rest[i - 1]);
                }
            }
        }
    }
}

/// The components of a path hold no slash and name something.
pub proof fn lemma_parts_are(s: Seq<char>)
    ensures
        are_parts(path::parts(s)),
{
    lemma_parts_are_from(s, 0);
}

proof fn lemma_parts_behind(s: Seq<char>, name: Seq<char>, from: int)
    requires
        is_part(name),
        0 <= from <= s.len(),
    ensures
        path::parts_from(s.push('/') + name, from) == path::parts_from(s, from).push(name),
    decreases s.len() - from,
{
    let t = s.push('/') + name;
    let n = s.len() as int;
    path::lemma_next_slash(s, from);
    let e = path::next_slash(s, from);
    assert forall|i: int| from <= i < e implies t[i] != '/' by {
        assert(t[i] == s[i]);
    }
    if e < n {
        assert(t[e] == s[e]);
    } else {
        assert(t[n] == '/');
    }
    lemma_next_slash_is(t, from, e);
    assert(t.subrange(from, e) =~= s.subrange(from, e));
    let head = s.subrange(from, e);
    if e < n {
        lemma_parts_behind(s, name, e + 1);
        if path::counts(head) {
            assert(seq![head] + path::parts_from(s, e + 1).push(name) =~= (seq![head]
                + path::parts_from(s, e + 1)).push(name));
        }
    } else {
        assert(path::parts_from(s, n + 1) =~= Seq::<Seq<char>>::empty());
        assert forall|i: int| n + 1 <= i < t.len() implies t[i] != '/' by {
            assert(t[i] == name[i - n - 1]);
        }
        lemma_next_slash_is(t, n + 1, t.len() as int);
        assert(t.subrange(n + 1, t.len() as int) =~= name);
        assert(path::parts_from(t, t.len() as int + 1) =~= Seq::<Seq<char>>::empty());
        assert(path::parts_from(t, n + 1) =~= seq![name]);
        if path::counts(head) {
            assert(seq![head] + seq![name] =~= (seq![head] + path::parts_from(s, n + 1)).push(
                name,
            ));
        } else {
            assert(seq![name] =~= path::parts_from(s, n + 1).push(name));
        }
    }
}

/// Nothing has no components.
pub proof fn lemma_no_parts()
    ensures
        path::parts(Seq::<char>::empty()) == Seq::<Seq<char>>::empty(),
{
    let none = Seq::<char>::empty();
    lemma_next_slash_is(none, 0, 0);
    assert(none.subrange(0, 0).len() == 0);
    assert(path::parts_from(none, 1) =~= Seq::<Seq<char>>::empty());
    assert(path::parts_from(none, 0) =~= Seq::<Seq<char>>::empty());
}

/// A component alone is its own only one.
pub proof fn lemma_one_part(name: Seq<char>)
    requires
        is_part(name),
    ensures
        path::parts(name) == seq![name],
{
    let n = name.len() as int;
    lemma_next_slash_is(name, 0, n);
    assert(name.subrange(0, n) =~= name);
    assert(path::parts_from(name, n + 1) =~= Seq::<Seq<char>>::empty());
    assert(path::parts_from(name, 0) =~= seq![name]);
}

/// A component behind a path and a slash is one more.
pub proof fn lemma_part_behind(s: Seq<char>, name: Seq<char>)
    requires
        is_part(name),
    ensures
        path::parts(s.push('/') + name) == path::parts(s).push(name),
{
    lemma_parts_behind(s, name, 0);
}

/// The root has no components.
pub proof fn lemma_root_parts()
    ensures
        path::parts(seq!['/']) == Seq::<Seq<char>>::empty(),
{
    lemma_parts_joined(Seq::empty());
}

/// An entry for the root is left out.
pub proof fn lemma_root_pushed(t: Tree, e: Item)
    requires
        e.path == seq!['/'],
    ensures
        t.pushed(e) == t,
{
    reveal(Tree::pushed);
    lemma_root_parts();
}

/// A path that was put together from components falls apart into them.
pub proof fn lemma_parts_joined(ps: Seq<Seq<char>>)
    requires
        are_parts(ps),
    ensures
        path::parts(names::joined(ps)) == ps,
    decreases ps.len(),
{
    let root = seq!['/'];
    if ps.len() == 0 {
        lemma_next_slash_is(root, 0, 0);
        lemma_next_slash_is(root, 1, 1);
        assert(root.subrange(0, 0).len() == 0);
        assert(root.subrange(1, 1).len() == 0);
        assert(path::parts_from(root, 2) =~= Seq::<Seq<char>>::empty());
        assert(path::parts_from(root, 1) =~= Seq::<Seq<char>>::empty());
        assert(path::parts_from(root, 0) =~= ps);
    } else {
        let front = ps.drop_last();
        let name = ps.last();
        let p = names::joined(front);
        assert(is_part(ps[ps.len() - 1]));
        assert forall|i: int| 0 <= i < front.len() implies is_part(#[trigger] front[i]) by {
            assert(front[i] == ps[i]);
        }
        lemma_parts_joined(front);
        if p == root {
            let none = Seq::<char>::empty();
            assert(root + name =~= none.push('/') + name);
            lemma_parts_behind(none, name, 0);
            lemma_next_slash_is(none, 0, 0);
            assert(none.subrange(0, 0).len() == 0);
            assert(path::parts_from(none, 1) =~= Seq::<Seq<char>>::empty());
            assert(path::parts_from(none, 0) =~= Seq::<Seq<char>>::empty());
            lemma_next_slash_is(root, 0, 0);
            lemma_next_slash_is(root, 1, 1);
            assert(root.subrange(0, 0).len() == 0);
            assert(root.subrange(1, 1).len() == 0);
            assert(path::parts_from(root, 2) =~= Seq::<Seq<char>>::empty());
            assert(path::parts_from(root, 1) =~= Seq::<Seq<char>>::empty());
            assert(front =~= Seq::<Seq<char>>::empty());
            assert(ps =~= seq![name]);
            assert(path::parts(names::joined(ps)) =~= ps);
        } else {
            lemma_parts_behind(p, name, 0);
            assert(front.push(name) =~= ps);
        }
    }
}

/// A path in its normal form is its own normal form.
pub proof fn lemma_normal_twice(s: Seq<char>)
    ensures
        names::normal(names::normal(s)) == names::normal(s),
{
    lemma_parts_are(s);
    lemma_parts_joined(path::parts(s));
}

// ---- directories ----

/// Whether no path stands twice.
pub open spec fn dirs_unique(s: Seq<Folder>) -> bool {
    forall|i: int, j: int|
        #![trigger s[i], s[j]]
        0 <= i < j < s.len() ==> s[i].path != s[j].path
}

/// Whether no name stands twice in a directory.
pub open spec fn names_unique(s: Seq<Folder>) -> bool {
    forall|d: int| 0 <= d < s.len() ==> (#[trigger] s[d]).names.no_duplicates()
}

/// Whether there is a directory at the path `p`.
pub open spec fn has_dir(s: Seq<Folder>, p: Seq<char>) -> bool {
    exists|d: int| 0 <= d < s.len() && (#[trigger] s[d]).path == p
}

/// Whether there is the name `n` in the directory at the path `p`.
pub open spec fn has_name(s: Seq<Folder>, p: Seq<char>, n: Seq<char>) -> bool {
    exists|d: int| 0 <= d < s.len() && (#[trigger] s[d]).path == p && s[d].names.contains(n)
}

/// Whether `t` has all the directories and names that `s` has.
pub open spec fn grown(s: Seq<Folder>, t: Seq<Folder>) -> bool {
    &&& forall|p: Seq<char>| #[trigger] has_dir(s, p) ==> has_dir(t, p)
    &&& forall|p: Seq<char>, n: Seq<char>| #[trigger] has_name(s, p, n) ==> has_name(t, p, n)
}

proof fn lemma_dir_at(s: Seq<Folder>, p: Seq<char>, i: int)
    requires
        0 <= i <= s.len(),
    ensures
        match index::dir_at(s, p, i) {
            Some(k) => i <= k < s.len() && s[k].path == p,
            None => forall|k: int| i <= k < s.len() ==> (#[trigger] s[k]).path != p,
        },
    decreases s.len() - i,
{
    if i < s.len() && s[i].path != p {
        lemma_dir_at(s, p, i + 1);
    }
}

proof fn lemma_with_dir(s: Seq<Folder>, p: Seq<char>)
    requires
        dirs_unique(s),
        names_unique(s),
    ensures
        dirs_unique(index::with_dir(s, p)),
        names_unique(index::with_dir(s, p)),
        has_dir(index::with_dir(s, p), p),
        grown(s, index::with_dir(s, p)),
        index::dir_at(index::with_dir(s, p), p, 0) is Some,
{
    let t = index::with_dir(s, p);
    lemma_dir_at(s, p, 0);
    lemma_dir_at(t, p, 0);
    if index::dir_at(s, p, 0) is None {
        assert(t[s.len() as int].path == p);
        assert forall|q: Seq<char>| has_dir(s, q) implies has_dir(t, q) by {
            let d = choose|d: int| 0 <= d < s.len() && (#[trigger] s[d]).path == q;
            assert(t[d].path == q);
        }
        assert forall|q: Seq<char>, n: Seq<char>| has_name(s, q, n) implies has_name(t, q, n) by {
            let d = choose|d: int|
                0 <= d < s.len() && (#[trigger] s[d]).path == q && s[d].names.contains(n);
            assert(t[d] == s[d]);
        }
        assert forall|i: int, j: int|
            #![trigger t[i], t[j]]
            0 <= i < j < t.len() implies t[i].path != t[j].path by {
            assert(t[i] == s[i]);
            if j < s.len() {
                assert(t[j] == s[j]);
            }
        }
        assert forall|d: int| 0 <= d < t.len() implies (#[trigger] t[d]).names.no_duplicates() by {
            if d < s.len() {
                assert(t[d] == s[d]);
            }
        }
    } else {
        let k = index::dir_at(s, p, 0).unwrap();
        assert(s[k].path == p);
    }
}

proof fn lemma_with_name(s: Seq<Folder>, p: Seq<char>, n: Seq<char>)
    requires
        dirs_unique(s),
        names_unique(s),
    ensures
        dirs_unique(index::with_name(s, p, n)),
        names_unique(index::with_name(s, p, n)),
        has_name(index::with_name(s, p, n), p, n),
        grown(s, index::with_name(s, p, n)),
{
    lemma_with_dir(s, p);
    let t = index::with_dir(s, p);
    let u = index::with_name(s, p, n);
    lemma_dir_at(t, p, 0);
    let k = index::dir_at(t, p, 0).unwrap();
    if t[k].names.contains(n) {
        assert(has_name(t, p, n));
    } else {
        let more = t[k].names.push(n);
        assert(u[k].names == more);
        assert(more[more.len() - 1] == n);
        assert(u[k].path == p && u[k].names.contains(n));
        assert(t[k].names.no_duplicates());
        assert(more.no_duplicates());
        assert forall|q: Seq<char>| has_dir(t, q) implies has_dir(u, q) by {
            let d = choose|d: int| 0 <= d < t.len() && (#[trigger] t[d]).path == q;
            assert(u[d].path == q);
        }
        assert forall|q: Seq<char>, m: Seq<char>| has_name(t, q, m) implies has_name(u, q, m) by {
            let d = choose|d: int|
                0 <= d < t.len() && (#[trigger] t[d]).path == q && t[d].names.contains(m);
            if d == k {
                let x = choose|x: int| 0 <= x < t[k].names.len() && t[k].names[x] == m;
                assert(more[x] == m);
                assert(u[k].names.contains(m));
            } else {
                assert(u[d] == t[d]);
            }
        }
        assert forall|i: int, j: int|
            #![trigger u[i], u[j]]
            0 <= i < j < u.len() implies u[i].path != u[j].path by {
            assert(u[i].path == t[i].path && u[j].path == t[j].path);
        }
        assert forall|d: int| 0 <= d < u.len() implies (#[trigger] u[d]).names.no_duplicates() by {
            if d != k {
                assert(u[d] == t[d]);
            }
        }
    }
    assert forall|q: Seq<char>| has_dir(s, q) implies has_dir(u, q) by {
        assert(has_dir(t, q));
    }
    assert forall|q: Seq<char>, m: Seq<char>| has_name(s, q, m) implies has_name(u, q, m) by {
        assert(has_name(t, q, m));
    }
}

/// Whether the first `i` components of the path `cs` are registered.
pub open spec fn on_the_way(s: Seq<Folder>, cs: Seq<Seq<char>>, i: int) -> bool {
    forall|k: int| 0 <= k < i ==> #[trigger] has_name(s, names::joined(cs.take(k)), cs[k])
}

proof fn lemma_registered(s: Seq<Folder>, cs: Seq<Seq<char>>, i: int)
    requires
        dirs_unique(s),
        names_unique(s),
        0 <= i <= cs.len(),
    ensures
        dirs_unique(index::registered(s, cs, i)),
        names_unique(index::registered(s, cs, i)),
        grown(s, index::registered(s, cs, i)),
        on_the_way(index::registered(s, cs, i), cs, i),
    decreases i,
{
    if i > 0 {
        lemma_registered(s, cs, i - 1);
        let a = index::registered(s, cs, i - 1);
        let p = names::joined(cs.take(i - 1));
        lemma_with_name(a, p, cs[i - 1]);
        let b = index::with_name(a, p, cs[i - 1]);
        lemma_with_dir(b, names::joined(cs.take(i)));
        let c = index::registered(s, cs, i);
        assert(grown(a, b));
        assert(grown(b, c)) by {
            if i >= cs.len() {
                assert(b == c);
            }
        }
        assert forall|q: Seq<char>| has_dir(s, q) implies has_dir(c, q) by {
            assert(has_dir(a, q));
            assert(has_dir(b, q));
        }
        assert forall|q: Seq<char>, m: Seq<char>| has_name(s, q, m) implies has_name(c, q, m) by {
            assert(has_name(a, q, m));
            assert(has_name(b, q, m));
        }
        assert forall|k: int| 0 <= k < i implies #[trigger] has_name(
            c,
            names::joined(cs.take(k)),
            cs[k],
        ) by {
            if k < i - 1 {
                assert(has_name(a, names::joined(cs.take(k)), cs[k]));
            }
            assert(has_name(b, names::joined(cs.take(k)), cs[k]));
        }
    }
}

// ---- trees ----

/// What holds of every tree: nothing stands twice, every entry has its path in
/// normal form, and every component of every entry's path is a name in the
/// directory that the components before it lead to.
pub open spec fn sound(t: Tree) -> bool {
    &&& dirs_unique(t.dirs)
    &&& names_unique(t.dirs)
    &&& has_dir(t.dirs, seq!['/'])
    &&& forall|i: int, j: int|
        #![trigger t.items[i], t.items[j]]
        0 <= i < j < t.items.len() ==> t.items[i].path != t.items[j].path
    &&& forall|i: int|
        #![trigger t.items[i]]
        0 <= i < t.items.len() ==> reachable(t, t.items[i].path)
    &&& forall|i: int|
        #![trigger t.items[i]]
        0 <= i < t.items.len() && t.items[i].kind == EntryKind::Dir ==> has_dir(
            t.dirs,
            t.items[i].path,
        )
}

/// Whether `p` is in normal form, is not the root, and is listed on the way from
/// the root.
pub open spec fn reachable(t: Tree, p: Seq<char>) -> bool {
    let cs = path::parts(p);
    &&& cs.len() > 0
    &&& names::joined(cs) == p
    &&& on_the_way(t.dirs, cs, cs.len() as int)
}

pub(crate) proof fn lemma_item_at(s: Seq<Item>, p: Seq<char>, i: int)
    requires
        0 <= i <= s.len(),
    ensures
        match index::item_at(s, p, i) {
            Some(k) => i <= k < s.len() && s[k].path == p,
            None => forall|k: int| i <= k < s.len() ==> (#[trigger] s[k]).path != p,
        },
    decreases s.len() - i,
{
    if i < s.len() && s[i].path != p {
        lemma_item_at(s, p, i + 1);
    }
}

proof fn lemma_item_stays(s: Seq<Item>, t: Seq<Item>, q: Seq<char>, i: int)
    requires
        0 <= i <= s.len(),
        s.len() <= t.len(),
        forall|k: int| 0 <= k < s.len() ==> (#[trigger] s[k]).path == t[k].path,
        forall|k: int| s.len() <= k < t.len() ==> (#[trigger] t[k]).path != q,
    ensures
        index::item_at(t, q, i) == index::item_at(s, q, i),
    decreases s.len() - i,
{
    if i < s.len() {
        assert(s[i].path == t[i].path);
        if s[i].path != q {
            lemma_item_stays(s, t, q, i + 1);
        }
    } else {
        lemma_item_at(t, q, i);
    }
}

/// An empty archive has a sound tree.
pub proof fn lemma_empty_sound()
    ensures
        sound(Tree::empty()),
{
    let t = Tree::empty();
    assert(t.dirs[0].path == seq!['/']);
}

/// Adding an entry keeps a tree sound.
pub proof fn lemma_pushed_sound(t: Tree, e: Item)
    requires
        sound(t),
    ensures
        sound(t.pushed(e)),
{
    reveal(Tree::pushed);
    let cs = path::parts(e.path);
    if cs.len() > 0 {
        let u = t.pushed(e);
        let p = names::joined(cs);
        let n = cs.len() as int;
        lemma_parts_are(e.path);
        lemma_parts_joined(cs);
        lemma_registered(t.dirs, cs, n);
        let d = index::registered(t.dirs, cs, n);
        lemma_with_dir(d, p);
        assert(grown(d, u.dirs));
        assert forall|q: Seq<char>| has_dir(t.dirs, q) implies has_dir(u.dirs, q) by {
            assert(has_dir(d, q));
        }
        assert forall|q: Seq<char>, m: Seq<char>| has_name(t.dirs, q, m) implies has_name(
            u.dirs,
            q,
            m,
        ) by {
            assert(has_name(d, q, m));
        }
        assert(on_the_way(u.dirs, cs, n)) by {
            assert forall|k: int| 0 <= k < n implies #[trigger] has_name(
                u.dirs,
                names::joined(cs.take(k)),
                cs[k],
            ) by {
                assert(has_name(d, names::joined(cs.take(k)), cs[k]));
            }
        }
        assert(reachable(u, p));
        lemma_item_at(t.items, p, 0);
        assert forall|i: int| #![trigger u.items[i]] 0 <= i < u.items.len() implies reachable(
            u,
            u.items[i].path,
        ) by {
            if u.items[i].path != p {
                assert(i < t.items.len() && u.items[i] == t.items[i]);
                let ds = path::parts(t.items[i].path);
                assert(reachable(t, t.items[i].path));
                assert forall|k: int| 0 <= k < ds.len() implies #[trigger] has_name(
                    u.dirs,
                    names::joined(ds.take(k)),
                    ds[k],
                ) by {
                    assert(has_name(t.dirs, names::joined(ds.take(k)), ds[k]));
                }
            }
        }
        assert forall|i: int, j: int|
            #![trigger u.items[i], u.items[j]]
            0 <= i < j < u.items.len() implies u.items[i].path != u.items[j].path by {
            assert(i < t.items.len());
            assert(t.items[i].path == u.items[i].path);
            if j < t.items.len() {
                assert(t.items[j].path == u.items[j].path);
            }
        }
        assert forall|i: int|
            #![trigger u.items[i]]
            0 <= i < u.items.len() && u.items[i].kind == EntryKind::Dir implies has_dir(
            u.dirs,
            u.items[i].path,
        ) by {
            if u.items[i].path != p {
                assert(i < t.items.len() && u.items[i] == t.items[i]);
                assert(has_dir(t.dirs, t.items[i].path));
            } else if e.kind != EntryKind::Dir {
                match index::item_at(t.items, p, 0) {
                    Some(k) => {
                        if i != k {
                            assert(u.items[i] == t.items[i]);
                            assert(t.items[k].path == p);
                        }
                    },
                    None => {
                        if i < t.items.len() {
                            assert(u.items[i] == t.items[i]);
                        }
                    },
                }
                assert(has_dir(u.dirs, p));
            }
        }
    }
}

/// Every directory on the way to an entry lists the next component of the
/// entry's path, and lists no name twice.
pub proof fn lemma_listed_once(t: Tree, i: int, k: int)
    requires
        sound(t),
        0 <= i < t.items.len(),
        0 <= k < path::parts(t.items[i].path).len(),
    ensures
        ({
            let cs = path::parts(t.items[i].path);
            &&& t.listed(names::joined(cs.take(k))) matches Ok(l)
            &&& exists|j: int| 0 <= j < l.len() && (#[trigger] l[j]).name == cs[k]
            &&& forall|a: int, b: int|
                #![trigger l[a], l[b]]
                0 <= a < b < l.len() ==> l[a].name != l[b].name
        }),
{
    let cs = path::parts(t.items[i].path);
    let front = cs.take(k);
    let p = names::joined(front);
    lemma_parts_are(t.items[i].path);
    assert forall|j: int| 0 <= j < front.len() implies is_part(#[trigger] front[j]) by {
        assert(front[j] == cs[j]);
    }
    lemma_parts_joined(front);
    assert(names::normal(p) == p);
    assert(reachable(t, t.items[i].path));
    assert(has_name(t.dirs, p, cs[k]));
    let d = choose|d: int|
        0 <= d < t.dirs.len() && (#[trigger] t.dirs[d]).path == p && t.dirs[d].names.contains(
            cs[k],
        );
    lemma_dir_at(t.dirs, p, 0);
    let f = index::dir_at(t.dirs, p, 0).unwrap();
    assert(t.dirs[f].path == t.dirs[d].path);
    assert(f == d);
    let l = t.listed(p).unwrap();
    let x = choose|x: int| 0 <= x < t.dirs[d].names.len() && t.dirs[d].names[x] == cs[k];
    assert(l[x].name == cs[k]);
    assert(t.dirs[d].names.no_duplicates());
    assert forall|a: int, b: int|
        #![trigger l[a], l[b]]
        0 <= a < b < l.len() implies l[a].name != l[b].name by {
        assert(l[a].name == t.dirs[d].names[a]);
        assert(l[b].name == t.dirs[d].names[b]);
    }
}

/// After an entry was added it is found at its path, whatever was there before;
/// what is found at any other path stays.
pub proof fn lemma_last_wins(t: Tree, e: Item, q: Seq<char>)
    requires
        path::parts(e.path).len() > 0,
    ensures
        t.pushed(e).found(e.path) == Some(Item { path: names::normal(e.path), ..e }),
        names::normal(q) != names::normal(e.path) ==> t.pushed(e).found(q) == t.found(q),
{
    reveal(Tree::pushed);
    let p = names::normal(e.path);
    let u = t.pushed(e);
    let it = Item { path: p, ..e };
    lemma_item_at(t.items, p, 0);
    lemma_item_at(u.items, p, 0);
    match index::item_at(t.items, p, 0) {
        Some(k) => {
            lemma_item_stays(t.items, u.items, p, 0);
            assert(u.items[k] == it);
        },
        None => {
            let k = index::item_at(u.items, p, 0);
            assert(u.items[t.items.len() as int] == it);
            if k is Some && k.unwrap() < t.items.len() {
                assert(u.items[k.unwrap()] == t.items[k.unwrap()]);
            }
        },
    }
    let n = names::normal(q);
    if n != p {
        lemma_item_stays(t.items, u.items, n, 0);
        lemma_item_at(t.items, n, 0);
    }
}

// ---- stored names ----

proof fn lemma_downward(ps: Seq<Seq<char>>, i: int, x: Seq<char>)
    requires
        are_parts(ps),
        0 <= i <= ps.len(),
    ensures
        are_parts(names::downward(ps, i)),
        names::downward(ps, i).len() <= i,
        names::downward(ps, i).contains(x) <==> !names::is_up(x) && ps.take(i).contains(x),
    decreases i,
{
    if i > 0 {
        lemma_downward(ps, i - 1, x);
        let a = names::downward(ps, i - 1);
        let b = names::downward(ps, i);
        assert(is_part(ps[i - 1]));
        assert(ps.take(i) =~= ps.take(i - 1).push(ps[i - 1]));
        if !names::is_up(ps[i - 1]) {
            assert(b == a.push(ps[i - 1]));
            assert forall|k: int| 0 <= k < b.len() implies is_part(#[trigger] b[k]) by {
                if k < a.len() {
                    assert(b[k] == a[k]);
                }
            }
            if a.contains(x) {
                let k = choose|k: int| 0 <= k < a.len() && a[k] == x;
                assert(b[k] == x);
            }
            if x == ps[i - 1] {
                assert(b[a.len() as int] == x);
            }
            if b.contains(x) {
                let k = choose|k: int| 0 <= k < b.len() && b[k] == x;
                if k < a.len() {
                    assert(a[k] == x);
                }
            }
        }
        let t = ps.take(i - 1);
        let u = ps.take(i);
        if t.contains(x) {
            let k = choose|k: int| 0 <= k < t.len() && t[k] == x;
            assert(u[k] == x);
        }
        assert(u[i - 1] == ps[i - 1]);
        if u.contains(x) {
            let k = choose|k: int| 0 <= k < u.len() && u[k] == x;
            if k < i - 1 {
                assert(t[k] == x);
            }
        }
    }
}

/// What an archive stores stays inside it: the path of a stored name has just those
/// components of the name that do not lead upwards.
pub proof fn lemma_stays_inside(s: Seq<char>, x: Seq<char>)
    ensures
        path::parts(names::stored_path(s)).contains(x) <==> !names::is_up(x) && path::parts(
            s,
        ).contains(x),
        names::normal(names::stored_path(s)) == names::stored_path(s),
{
    let ps = path::parts(s);
    lemma_parts_are(s);
    lemma_downward(ps, ps.len() as int, x);
    lemma_parts_joined(names::stored_parts(s));
    assert(ps.take(ps.len() as int) =~= ps);
}

} // verus!
