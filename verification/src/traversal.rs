//! Depth-first walk of the type database that lists each type after the
//! types it refers to (its parent, its fields' types, its methods' return
//! and parameter types), every type at most once.
use vstd::prelude::*;

use crate::il2cpp::{db_wf, Il2Cpp, REMethod, REType};
use crate::strmap::{key_set, lemma_map_insert, map_get, Entries, StrMap};

verus! {

/// The names of the return and parameter types of `ms`, method by method.
pub open spec fn method_refs(ms: Seq<REMethod>) -> Seq<Seq<char>>
    decreases ms.len(),
{
    if ms.len() == 0 {
        Seq::empty()
    } else {
        let m = ms.last();
        method_refs(ms.drop_last()) + match m.returns {
            Some(r) => seq![r.type_@],
            None => Seq::empty(),
        } + match m.params {
            Some(ps) => ps@.map_values(|p: crate::il2cpp::REParam| p.type_@),
            None => Seq::empty(),
        }
    }
}

/// The names a type refers to, in the order the walk follows them: the
/// parent (when it has one), the fields' types, then the methods' return
/// and parameter types.
pub open spec fn children(ty: REType) -> Seq<Seq<char>> {
    (if ty.parent@.len() > 0 {
        seq![ty.parent@]
    } else {
        Seq::empty()
    }) + ty.fields@.map_values(|f: crate::il2cpp::REField| f.type_@) + method_refs(ty.methods@)
}

/// Every name of the database: the keys and every name a type refers to.
pub open spec fn all_names(m: Entries<REType>) -> Seq<Seq<char>>
    decreases m.len(),
{
    if m.len() == 0 {
        Seq::empty()
    } else {
        all_names(m.drop_last()) + seq![m.last().0] + children(m.last().1)
    }
}

/// The set of every name of the database.
pub open spec fn universe(m: Entries<REType>) -> Set<Seq<char>> {
    all_names(m).to_set()
}

/// The number of names of the database not yet visited.
pub open spec fn unvisited(m: Entries<REType>, visited: Set<Seq<char>>) -> nat {
    universe(m).difference(visited).len()
}

/// The walk from `name`: nothing if `name` was visited; otherwise `name`
/// is marked visited and, when the database has it, the names its type
/// refers to are walked in order and then `name` is listed. Returns the
/// visited set and the listed names. `fuel` bounds the depth; with at
/// least as much fuel as there are unvisited names it never runs out.
pub open spec fn visit_spec(m: Entries<REType>, fuel: nat, name: Seq<char>, visited: Set<Seq<char>>) -> (
    Set<Seq<char>>,
    Seq<Seq<char>>,
)
    decreases fuel, 0nat,
{
    if visited.contains(name) {
        (visited, Seq::empty())
    } else if fuel == 0 {
        (visited.insert(name), Seq::empty())
    } else {
        match map_get(m, name) {
            None => (visited.insert(name), Seq::empty()),
            Some(ty) => {
                let r = visit_list(m, (fuel - 1) as nat, children(ty), visited.insert(name));
                (r.0, r.1.push(name))
            },
        }
    }
}

/// The walks from each of `names` in turn.
pub open spec fn visit_list(
    m: Entries<REType>,
    fuel: nat,
    names: Seq<Seq<char>>,
    visited: Set<Seq<char>>,
) -> (Set<Seq<char>>, Seq<Seq<char>>)
    decreases fuel, names.len(),
{
    if names.len() == 0 {
        (visited, Seq::empty())
    } else {
        let a = visit_spec(m, fuel, names[0], visited);
        let b = visit_list(m, fuel, names.drop_first(), a.0);
        (b.0, a.1 + b.1)
    }
}

/// The walk from `name` with enough fuel.
pub open spec fn walk(m: Entries<REType>, name: Seq<char>, visited: Set<Seq<char>>) -> (
    Set<Seq<char>>,
    Seq<Seq<char>>,
) {
    visit_spec(m, unvisited(m, visited), name, visited)
}

/// The walks from each of `names` in turn, with enough fuel.
pub open spec fn walk_all(m: Entries<REType>, names: Seq<Seq<char>>, visited: Set<Seq<char>>) -> (
    Set<Seq<char>>,
    Seq<Seq<char>>,
) {
    visit_list(m, unvisited(m, visited), names, visited)
}

/// The database has finitely many names.
pub proof fn lemma_universe_finite(m: Entries<REType>)
    ensures
        universe(m).finite(),
{
    broadcast use vstd::seq_lib::seq_to_set_is_finite;

}

/// Keys and the names their types refer to belong to the database's names.
pub proof fn lemma_universe_contains(m: Entries<REType>, i: int)
    requires
        0 <= i < m.len(),
    ensures
        universe(m).contains(m[i].0),
        forall|k: int| 0 <= k < children(m[i].1).len() ==> universe(m).contains(
            #[trigger] children(m[i].1)[k],
        ),
    decreases m.len(),
{
    let a = all_names(m);
    if i == m.len() - 1 {
        let pre = all_names(m.drop_last());
        assert(a[pre.len() as int] == m[i].0);
        assert forall|k: int| 0 <= k < children(m[i].1).len() implies universe(m).contains(
            #[trigger] children(m[i].1)[k],
        ) by {
            assert(a[pre.len() + 1 + k] == children(m[i].1)[k]);
        }
    } else {
        lemma_universe_contains(m.drop_last(), i);
        let pre = all_names(m.drop_last());
        assert(m.drop_last()[i] == m[i]);
        assert(pre.to_set().subset_of(a.to_set())) by {
            assert forall|x: Seq<char>| pre.to_set().contains(x) implies a.to_set().contains(x) by {
                let j = choose|j: int| 0 <= j < pre.len() && pre[j] == x;
                assert(a[j] == x);
            }
        }
    }
}

/// A type of the database and the names it refers to are names of the
/// database.
pub proof fn lemma_get_in_universe(m: Entries<REType>, name: Seq<char>)
    requires
        map_get(m, name) is Some,
    ensures
        universe(m).contains(name),
        forall|k: int| 0 <= k < children(map_get(m, name)->0).len() ==> universe(m).contains(
            #[trigger] children(map_get(m, name)->0)[k],
        ),
{
    crate::strmap::lemma_key_index(m, name);
    let i = crate::strmap::key_index(m, name);
    lemma_universe_contains(m, i);
}

/// Visiting more names leaves fewer unvisited.
pub proof fn lemma_unvisited_mono(m: Entries<REType>, v1: Set<Seq<char>>, v2: Set<Seq<char>>)
    requires
        v1.subset_of(v2),
    ensures
        unvisited(m, v2) <= unvisited(m, v1),
{
    lemma_universe_finite(m);
    let u = universe(m);
    vstd::set_lib::lemma_len_difference(u, v1);
    assert(u.difference(v2).subset_of(u.difference(v1)));
    vstd::set_lib::lemma_len_subset(u.difference(v2), u.difference(v1));
}

/// Visiting an unvisited name of the database leaves one fewer.
pub proof fn lemma_unvisited_insert(m: Entries<REType>, v: Set<Seq<char>>, n: Seq<char>)
    requires
        universe(m).contains(n),
        !v.contains(n),
    ensures
        unvisited(m, v.insert(n)) + 1 == unvisited(m, v),
{
    lemma_universe_finite(m);
    let u = universe(m);
    vstd::set_lib::lemma_len_difference(u, v);
    assert(u.difference(v.insert(n)) =~= u.difference(v).remove(n));
    vstd::set_lib::lemma_set_subset_finite(u, u.difference(v));
}

/// A walk only adds to the visited set.
pub proof fn lemma_visit_grows(m: Entries<REType>, fuel: nat, name: Seq<char>, visited: Set<Seq<char>>)
    ensures
        visited.subset_of(visit_spec(m, fuel, name, visited).0),
    decreases fuel, 0nat,
{
    if !visited.contains(name) && fuel > 0 {
        if let Some(ty) = map_get(m, name) {
            lemma_list_grows(m, (fuel - 1) as nat, children(ty), visited.insert(name));
        }
    }
}

/// Walks from several names only add to the visited set.
pub proof fn lemma_list_grows(
    m: Entries<REType>,
    fuel: nat,
    names: Seq<Seq<char>>,
    visited: Set<Seq<char>>,
)
    ensures
        visited.subset_of(visit_list(m, fuel, names, visited).0),
    decreases fuel, names.len(),
{
    if names.len() > 0 {
        lemma_visit_grows(m, fuel, names[0], visited);
        let a = visit_spec(m, fuel, names[0], visited);
        lemma_list_grows(m, fuel, names.drop_first(), a.0);
    }
}

/// With at least as much fuel as there are unvisited names, the amount of
/// fuel does not change a walk.
pub proof fn lemma_visit_fuel(
    m: Entries<REType>,
    f1: nat,
    f2: nat,
    name: Seq<char>,
    visited: Set<Seq<char>>,
)
    requires
        f1 >= f2 >= unvisited(m, visited),
        universe(m).contains(name),
    ensures
        visit_spec(m, f1, name, visited) == visit_spec(m, f2, name, visited),
    decreases f2, 0nat,
{
    if !visited.contains(name) {
        lemma_unvisited_insert(m, visited, name);
        if let Some(ty) = map_get(m, name) {
            lemma_get_in_universe(m, name);
            lemma_list_fuel(
                m,
                (f1 - 1) as nat,
                (f2 - 1) as nat,
                children(ty),
                visited.insert(name),
            );
        }
    }
}

/// With at least as much fuel as there are unvisited names, the amount of
/// fuel does not change walks from several names.
pub proof fn lemma_list_fuel(
    m: Entries<REType>,
    f1: nat,
    f2: nat,
    names: Seq<Seq<char>>,
    visited: Set<Seq<char>>,
)
    requires
        f1 >= f2 >= unvisited(m, visited),
        forall|k: int| 0 <= k < names.len() ==> universe(m).contains(#[trigger] names[k]),
    ensures
        visit_list(m, f1, names, visited) == visit_list(m, f2, names, visited),
    decreases f2, names.len(),
{
    if names.len() > 0 {
        lemma_visit_fuel(m, f1, f2, names[0], visited);
        let a = visit_spec(m, f2, names[0], visited);
        lemma_visit_grows(m, f2, names[0], visited);
        lemma_unvisited_mono(m, visited, a.0);
        assert forall|k: int| 0 <= k < names.drop_first().len() implies universe(m).contains(
            #[trigger] names.drop_first()[k],
        ) by {
            assert(names.drop_first()[k] == names[k + 1]);
        }
        lemma_list_fuel(m, f1, f2, names.drop_first(), a.0);
    }
}

/// The character sequences of a sequence of strings.
pub open spec fn name_views(v: Seq<String>) -> Seq<Seq<char>> {
    v.map_values(|s: String| s@)
}

/// The names the type `ty` refers to, in walk order.
pub fn child_names(ty: &REType) -> (res: Vec<String>)
    ensures
        name_views(res@) == children(*ty),
{
    let mut res: Vec<String> = Vec::new();
    if !ty.parent.as_str().is_empty() {
        res.push(ty.parent.clone());
    }
    let ghost head = name_views(res@);
    assert(head =~= if ty.parent@.len() > 0 {
        seq![ty.parent@]
    } else {
        Seq::empty()
    });
    let ghost fts = ty.fields@.map_values(|f: crate::il2cpp::REField| f.type_@);
    for i in 0..ty.fields.len()
        invariant
            fts == ty.fields@.map_values(|f: crate::il2cpp::REField| f.type_@),
            name_views(res@) == head + fts.take(i as int),
    {
        let ghost before = name_views(res@);
        res.push(ty.fields[i].type_.clone());
        assert(fts.take(i + 1) =~= fts.take(i as int).push(fts[i as int]));
        assert(name_views(res@) =~= before.push(ty.fields@[i as int].type_@));
    }
    assert(fts.take(fts.len() as int) =~= fts);
    let ghost head2 = name_views(res@);
    for i in 0..ty.methods.len()
        invariant
            name_views(res@) == head2 + method_refs(ty.methods@.take(i as int)),
    {
        let method = &ty.methods[i];
        let ghost before = name_views(res@);
        assert(ty.methods@.take(i + 1).drop_last() =~= ty.methods@.take(i as int));
        if let Some(ret) = &method.returns {
            res.push(ret.type_.clone());
        }
        let ghost mid = name_views(res@);
        assert(mid =~= before + match method.returns {
            Some(r) => seq![r.type_@],
            None => Seq::<Seq<char>>::empty(),
        });
        if let Some(params) = &method.params {
            let ghost pts = params@.map_values(|p: crate::il2cpp::REParam| p.type_@);
            for j in 0..params.len()
                invariant
                    pts == params@.map_values(|p: crate::il2cpp::REParam| p.type_@),
                    name_views(res@) == mid + pts.take(j as int),
            {
                let ghost b2 = name_views(res@);
                res.push(params[j].type_.clone());
                assert(pts.take(j + 1) =~= pts.take(j as int).push(pts[j as int]));
                assert(name_views(res@) =~= b2.push(params@[j as int].type_@));
            }
            assert(pts.take(pts.len() as int) =~= pts);
        } else {
            assert(name_views(res@) =~= mid + Seq::<Seq<char>>::empty());
        }
        assert(name_views(res@) =~= head2 + method_refs(ty.methods@.take(i + 1)));
    }
    assert(ty.methods@.take(ty.methods@.len() as int) =~= ty.methods@);
    res
}

/// Walks from `name`: marks it visited and, the first time, walks the
/// names its type refers to and then appends `name` to `emitted`.
fn visit(name: &str, il2cpp: &Il2Cpp, visited: &mut StrMap<()>, emitted: &mut Vec<String>)
    requires
        db_wf(il2cpp),
        old(visited).wf(),
        universe(il2cpp@).contains(name@),
    ensures
        final(visited).wf(),
        key_set(final(visited)@) == walk(il2cpp@, name@, key_set(old(visited)@)).0,
        name_views(final(emitted)@) == name_views(old(emitted)@) + walk(
            il2cpp@,
            name@,
            key_set(old(visited)@),
        ).1,
    decreases unvisited(il2cpp@, key_set(old(visited)@)),
{
    let ghost m = il2cpp@;
    let ghost v0 = key_set(visited@);
    let ghost e0 = name_views(emitted@);
    let ghost f = unvisited(m, v0);
    proof {
        visited.lemma_wf();
        lemma_map_insert(visited@, name@, ());
    }
    if !visited.insert(name.to_owned(), ()) {
        assert(v0.contains(name@));
        assert(name_views(emitted@) =~= e0 + Seq::<Seq<char>>::empty());
        return ;
    }
    assert(!v0.contains(name@));
    proof {
        lemma_unvisited_insert(m, v0, name@);
    }
    let ghost v1 = key_set(visited@);
    assert(v1 == v0.insert(name@));
    match il2cpp.get(name) {
        None => {
            assert(name_views(emitted@) =~= e0 + Seq::<Seq<char>>::empty());
        },
        Some(ty) => {
            let kids = child_names(ty);
            let ghost ks = name_views(kids@);
            proof {
                lemma_get_in_universe(m, name@);
                assert forall|j: int| 0 <= j < ks.len() implies universe(m).contains(
                    #[trigger] ks[j],
                ) by {
                    assert(map_get(m, name@) == Some(*ty));
                    assert(ks[j] == children(map_get(m, name@)->0)[j]);
                }
            }
            let ghost total = visit_list(m, (f - 1) as nat, ks, v1);
            assert(ks.skip(0) =~= ks);
            for k in 0..kids.len()
                invariant
                    db_wf(il2cpp),
                    visited.wf(),
                    m == il2cpp@,
                    ks == name_views(kids@),
                    f >= 1,
                    f == unvisited(m, v0),
                    f == unvisited(il2cpp@, key_set(old(visited)@)),
                    unvisited(m, v1) + 1 == f,
                    forall|j: int| 0 <= j < ks.len() ==> universe(m).contains(#[trigger] ks[j]),
                    v1.subset_of(key_set(visited@)),
                    total == visit_list(m, (f - 1) as nat, ks, v1),
                    visit_list(m, (f - 1) as nat, ks.skip(k as int), key_set(visited@)).0
                        == total.0,
                    name_views(emitted@) + visit_list(m, (f - 1) as nat, ks.skip(k as int), key_set(visited@)).1
                        == e0 + total.1,
            {
                let ghost vk = key_set(visited@);
                let ghost ek = name_views(emitted@);
                proof {
                    lemma_unvisited_mono(m, v1, vk);
                    assert(ks[k as int] == kids@[k as int]@);
                    assert(universe(m).contains(ks[k as int]));
                    lemma_visit_fuel(m, (f - 1) as nat, unvisited(m, vk), ks[k as int], vk);
                }
                visit(kids[k].as_str(), il2cpp, visited, emitted);
                proof {
                    let rest = ks.skip(k as int);
                    assert(rest[0] == ks[k as int]);
                    assert(rest.drop_first() =~= ks.skip(k + 1));
                    let a = visit_spec(m, (f - 1) as nat, ks[k as int], vk);
                    lemma_visit_grows(m, (f - 1) as nat, ks[k as int], vk);
                    let b = visit_list(m, (f - 1) as nat, ks.skip(k + 1), a.0);
                    assert(visit_list(m, (f - 1) as nat, rest, vk) == (b.0, a.1 + b.1));
                    assert(name_views(emitted@) == ek + a.1);
                    assert(name_views(emitted@) + b.1 =~= ek + (a.1 + b.1));
                }
            }
            let ghost before = name_views(emitted@);
            emitted.push(name.to_owned());
            assert(name_views(emitted@) =~= before.push(name@));
            proof {
                assert(ks.skip(ks.len() as int) =~= Seq::<Seq<char>>::empty());
                assert(before + Seq::<Seq<char>>::empty() =~= before);
                assert(e0 + total.1.push(name@) =~= name_views(emitted@));
            }
        },
    }
}

/// Walks from each key of the database marked in `selected`, in database
/// order. Returns the names of the types in the order they were listed:
/// each after the types it refers to (unless they were already visited or
/// are being walked), each at most once.
pub fn visit_selected(il2cpp: &Il2Cpp, visited: &mut StrMap<()>, selected: &Vec<bool>) -> (emitted: Vec<String>)
    requires
        db_wf(il2cpp),
        old(visited).wf(),
        selected@.len() == il2cpp@.len(),
    ensures
        final(visited).wf(),
        key_set(final(visited)@) == walk_all(il2cpp@, selected_keys(il2cpp@, selected@), key_set(old(visited)@)).0,
        name_views(emitted@) == walk_all(il2cpp@, selected_keys(il2cpp@, selected@), key_set(old(visited)@)).1,
{
    let ghost m = il2cpp@;
    let ghost v0 = key_set(visited@);
    let ghost f = unvisited(m, v0);
    let ghost roots = selected_keys(m, selected@);
    let ghost total = visit_list(m, f, roots, v0);
    let mut emitted: Vec<String> = Vec::new();
    assert(roots.skip(0) =~= roots);
    proof {
        lemma_selected_keys_in_universe(m, selected@);
        lemma_selected_keys_take(m, selected@, 0);
    }
    let n = il2cpp.len();
    for i in 0..n
        invariant
            db_wf(il2cpp),
            visited.wf(),
            m == il2cpp@,
            n == m.len(),
            selected@.len() == m.len(),
            roots == selected_keys(m, selected@),
            f == unvisited(m, v0),
            total == visit_list(m, f, roots, v0),
            v0.subset_of(key_set(visited@)),
            forall|j: int| 0 <= j < roots.len() ==> universe(m).contains(#[trigger] roots[j]),
            selected_count(selected@.take(i as int)) <= roots.len(),
            visit_list(m, f, roots.skip(selected_count(selected@.take(i as int)) as int), key_set(visited@)).0 == total.0,
            name_views(emitted@) + visit_list(m, f, roots.skip(selected_count(selected@.take(i as int)) as int), key_set(visited@)).1
                == total.1,
    {
        proof {
            lemma_selected_keys_take(m, selected@, i as int);
            lemma_selected_keys_take(m, selected@, i + 1);
            assert(selected@.take(i + 1).drop_last() =~= selected@.take(i as int));
        }
        if selected[i] {
            let key = il2cpp.key_at(i);
            let ghost c = selected_count(selected@.take(i as int)) as int;
            let ghost vk = key_set(visited@);
            let ghost ek = name_views(emitted@);
            proof {
                assert(roots[c] == m[i as int].0);
                lemma_unvisited_mono(m, v0, vk);
                lemma_visit_fuel(m, f, unvisited(m, vk), roots[c], vk);
            }
            visit(key.as_str(), il2cpp, visited, &mut emitted);
            proof {
                let rest = roots.skip(c);
                assert(rest[0] == roots[c]);
                assert(rest.drop_first() =~= roots.skip(c + 1));
                let a = visit_spec(m, f, roots[c], vk);
                lemma_visit_grows(m, f, roots[c], vk);
                let b = visit_list(m, f, roots.skip(c + 1), a.0);
                assert(visit_list(m, f, rest, vk) == (b.0, a.1 + b.1));
                assert(name_views(emitted@) == ek + a.1);
                assert(name_views(emitted@) + b.1 =~= ek + (a.1 + b.1));
            }
        }
    }
    proof {
        lemma_selected_keys_take(m, selected@, m.len() as int);
        assert(selected@.take(m.len() as int) =~= selected@);
        assert(roots.skip(roots.len() as int) =~= Seq::<Seq<char>>::empty());
        assert(name_views(emitted@) + Seq::<Seq<char>>::empty() =~= name_views(emitted@));
    }
    emitted
}

/// The keys of `m` whose flag in `selected` is set, in order.
pub open spec fn selected_keys(m: Entries<REType>, selected: Seq<bool>) -> Seq<Seq<char>>
    decreases selected.len(),
{
    if selected.len() == 0 || m.len() < selected.len() {
        Seq::empty()
    } else {
        let prev = selected_keys(m, selected.drop_last());
        if selected.last() {
            prev.push(m[selected.len() - 1].0)
        } else {
            prev
        }
    }
}

/// The number of set flags.
pub open spec fn selected_count(selected: Seq<bool>) -> nat
    decreases selected.len(),
{
    if selected.len() == 0 {
        0
    } else {
        selected_count(selected.drop_last()) + if selected.last() {
            1nat
        } else {
            0nat
        }
    }
}

/// The selected keys of a prefix of the selection.
pub proof fn lemma_selected_keys_take(m: Entries<REType>, selected: Seq<bool>, i: int)
    requires
        selected.len() == m.len(),
        0 <= i <= selected.len(),
    ensures
        selected_keys(m, selected.take(i)) == selected_keys(m, selected).take(
            selected_count(selected.take(i)) as int,
        ),
        selected_count(selected.take(i)) <= selected_keys(m, selected).len(),
        selected_keys(m, selected).len() == selected_count(selected),
        i < selected.len() && selected[i] ==> selected_keys(m, selected)[selected_count(
            selected.take(i),
        ) as int] == m[i].0,
        i < selected.len() ==> selected_count(selected.take(i + 1)) == selected_count(
            selected.take(i),
        ) + if selected[i] {
            1nat
        } else {
            0nat
        },
    decreases selected.len() - i,
{
    lemma_selected_keys_len(m, selected);
    lemma_selected_keys_len(m, selected.take(i));
    if i < selected.len() {
        lemma_selected_keys_take(m, selected, i + 1);
        let t = selected.take(i + 1);
        assert(t.drop_last() =~= selected.take(i));
        assert(t.last() == selected[i]);
        lemma_selected_keys_len(m, t);
        let r = selected_keys(m, selected);
        let c = selected_count(selected.take(i)) as int;
        if selected[i] {
            assert(selected_keys(m, t) == selected_keys(m, selected.take(i)).push(m[i].0));
            assert(r.take(c + 1).drop_last() =~= r.take(c));
            assert(r.take(c + 1)[c] == r[c]);
        } else {
            assert(selected_keys(m, t) == selected_keys(m, selected.take(i)));
        }
    } else {
        assert(selected.take(i) =~= selected);
        assert(selected_keys(m, selected).take(selected_count(selected) as int) =~= selected_keys(
            m,
            selected,
        ));
    }
}

/// There are no more selected keys than keys.
pub proof fn lemma_selected_keys_len(m: Entries<REType>, selected: Seq<bool>)
    requires
        selected.len() <= m.len(),
    ensures
        selected_keys(m, selected).len() == selected_count(selected),
    decreases selected.len(),
{
    if selected.len() > 0 {
        lemma_selected_keys_len(m, selected.drop_last());
    }
}

/// Selected keys are names of the database.
pub proof fn lemma_selected_keys_in_universe(m: Entries<REType>, selected: Seq<bool>)
    requires
        selected.len() <= m.len(),
    ensures
        forall|j: int| 0 <= j < selected_keys(m, selected).len() ==> universe(m).contains(
            #[trigger] selected_keys(m, selected)[j],
        ),
    decreases selected.len(),
{
    if selected.len() > 0 {
        lemma_selected_keys_in_universe(m, selected.drop_last());
        lemma_universe_contains(m, selected.len() - 1);
        let prev = selected_keys(m, selected.drop_last());
        let cur = selected_keys(m, selected);
        assert forall|j: int| 0 <= j < cur.len() implies universe(m).contains(#[trigger] cur[j]) by {
            if j < prev.len() {
                assert(cur[j] == prev[j]);
            }
        }
    }
}

} // verus!

verus! {

/// A compiled regular expression of `regex`.
#[verifier::external_type_specification]
#[verifier::external_body]
pub struct ExRegex(regex::Regex);

/// A filter on type names: a regular expression, kept with the pattern it
/// was compiled from.
pub struct NameFilter {
    pattern: String,
    re: regex::Regex,
}

impl View for NameFilter {
    type V = Seq<char>;

    /// The pattern the filter was compiled from.
    closed spec fn view(&self) -> Seq<char> {
        self.pattern@
    }
}

/// Whether `Regex::new` accepts `pattern`.
pub uninterp spec fn regex_compiles(pattern: Seq<char>) -> bool;

/// Whether the regular expression `pattern` matches somewhere in `haystack`.
pub uninterp spec fn regex_match(pattern: Seq<char>, haystack: Seq<char>) -> bool;

/// `Regex::new`: compiles `pattern`, and keeps it beside the compiled
/// expression. Whether the pattern compiles is named: it depends on the
/// pattern alone (the builder's default limits are fixed). Nothing more is
/// stated of the regular-expression grammar.
#[verifier::external_body]
fn compile_filter(pattern: &str) -> (r: Option<NameFilter>)
    ensures
        r is Some <==> regex_compiles(pattern@),
        r matches Some(f) ==> f@ == pattern@,
{
    match regex::Regex::new(pattern) {
        Ok(re) => Some(NameFilter { pattern: pattern.to_string(), re }),
        Err(_) => None,
    }
}

/// `Regex::is_match` on the filter's compiled expression. The answer is
/// named: it depends on the pattern and `haystack` alone.
#[verifier::external_body]
fn regex_is_match(f: &NameFilter, haystack: &str) -> (b: bool)
    ensures
        b == regex_match(f@, haystack@),
{
    f.re.is_match(haystack)
}

impl NameFilter {
    /// The filter compiled from `pattern`, if `regex` accepts the pattern.
    pub fn new(pattern: &str) -> (r: Option<NameFilter>)
        ensures
            r is Some <==> regex_compiles(pattern@),
            r matches Some(f) ==> f@ == pattern@,
    {
        compile_filter(pattern)
    }
}

/// The pattern of an optional filter.
pub open spec fn filter_pattern(filter: Option<NameFilter>) -> Option<Seq<char>> {
    match filter {
        Some(f) => Some(f@),
        None => None,
    }
}

/// Which keys of `m` a filter keeps: every key without a filter, the keys
/// the pattern matches otherwise.
pub open spec fn filter_selection(m: Entries<REType>, pattern: Option<Seq<char>>) -> Seq<bool> {
    Seq::new(
        m.len(),
        |i: int|
            match pattern {
                Some(p) => regex_match(p, m[i].0),
                None => true,
            },
    )
}

/// Walks from each key of the database that `filter` keeps (every key
/// without a filter), in database order. Returns the names of the types in
/// the order they were listed: each after the types it refers to (unless
/// they were already visited or are being walked), each at most once.
pub fn visit_in_order(il2cpp: &Il2Cpp, visited: &mut StrMap<()>, filter: &Option<NameFilter>) -> (emitted: Vec<String>)
    requires
        db_wf(il2cpp),
        old(visited).wf(),
    ensures
        final(visited).wf(),
        key_set(final(visited)@) == walk_all(
            il2cpp@,
            selected_keys(il2cpp@, filter_selection(il2cpp@, filter_pattern(*filter))),
            key_set(old(visited)@),
        ).0,
        name_views(emitted@) == walk_all(
            il2cpp@,
            selected_keys(il2cpp@, filter_selection(il2cpp@, filter_pattern(*filter))),
            key_set(old(visited)@),
        ).1,
{
    let ghost sel = filter_selection(il2cpp@, filter_pattern(*filter));
    let mut selected: Vec<bool> = Vec::new();
    let n = il2cpp.len();
    for i in 0..n
        invariant
            n == il2cpp@.len(),
            sel == filter_selection(il2cpp@, filter_pattern(*filter)),
            selected@ == sel.take(i as int),
    {
        let keep = match filter {
            Some(f) => regex_is_match(f, il2cpp.key_at(i).as_str()),
            None => true,
        };
        selected.push(keep);
        assert(selected@ =~= sel.take(i + 1));
    }
    assert(sel.take(n as int) =~= sel);
    visit_selected(il2cpp, visited, &selected)
}

} // verus!

verus! {

/// What a walk lists: no name twice, only names of types in the database,
/// only names not visited before and visited after.
pub open spec fn lists_well(
    m: Entries<REType>,
    before: Set<Seq<char>>,
    r: (Set<Seq<char>>, Seq<Seq<char>>),
) -> bool {
    &&& before.subset_of(r.0)
    &&& r.1.no_duplicates()
    &&& forall|k: int|
        0 <= k < r.1.len() ==> {
            &&& r.0.contains(#[trigger] r.1[k])
            &&& !before.contains(r.1[k])
            &&& map_get(m, r.1[k]) is Some
        }
}

/// A walk from one name lists well and visits the name.
pub proof fn lemma_visit_lists_well(m: Entries<REType>, fuel: nat, name: Seq<char>, visited: Set<Seq<char>>)
    ensures
        lists_well(m, visited, visit_spec(m, fuel, name, visited)),
        visit_spec(m, fuel, name, visited).0.contains(name),
    decreases fuel, 0nat,
{
    if !visited.contains(name) && fuel > 0 {
        if let Some(ty) = map_get(m, name) {
            let v1 = visited.insert(name);
            lemma_list_lists_well(m, (fuel - 1) as nat, children(ty), v1);
            let r = visit_list(m, (fuel - 1) as nat, children(ty), v1);
            let e = r.1.push(name);
            assert forall|a: int, b: int| 0 <= a < b < e.len() implies e[a] != e[b] by {
                if b == e.len() - 1 {
                    assert(!v1.contains(r.1[a]));
                }
            }
            assert forall|k: int| 0 <= k < e.len() implies {
                &&& r.0.contains(#[trigger] e[k])
                &&& !visited.contains(e[k])
                &&& map_get(m, e[k]) is Some
            } by {
                if k < r.1.len() {
                    assert(e[k] == r.1[k]);
                }
            }
        }
    }
}

/// Walks from several names list well and visit every one of them.
pub proof fn lemma_list_lists_well(
    m: Entries<REType>,
    fuel: nat,
    names: Seq<Seq<char>>,
    visited: Set<Seq<char>>,
)
    ensures
        lists_well(m, visited, visit_list(m, fuel, names, visited)),
        forall|k: int| 0 <= k < names.len() ==> visit_list(m, fuel, names, visited).0.contains(
            #[trigger] names[k],
        ),
    decreases fuel, names.len(),
{
    if names.len() > 0 {
        lemma_visit_lists_well(m, fuel, names[0], visited);
        let a = visit_spec(m, fuel, names[0], visited);
        lemma_list_lists_well(m, fuel, names.drop_first(), a.0);
        let b = visit_list(m, fuel, names.drop_first(), a.0);
        let e = a.1 + b.1;
        assert forall|i: int, j: int| 0 <= i < j < e.len() implies e[i] != e[j] by {
            if i < a.1.len() && j >= a.1.len() {
                assert(a.0.contains(a.1[i]));
                assert(e[j] == b.1[j - a.1.len()]);
            } else if i >= a.1.len() {
                assert(e[i] == b.1[i - a.1.len()]);
                assert(e[j] == b.1[j - a.1.len()]);
            }
        }
        assert forall|k: int| 0 <= k < e.len() implies {
            &&& b.0.contains(#[trigger] e[k])
            &&& !visited.contains(e[k])
            &&& map_get(m, e[k]) is Some
        } by {
            if k < a.1.len() {
                assert(e[k] == a.1[k]);
            } else {
                assert(e[k] == b.1[k - a.1.len()]);
            }
        }
        assert forall|k: int| 0 <= k < names.len() implies b.0.contains(#[trigger] names[k]) by {
            if k > 0 {
                assert(names[k] == names.drop_first()[k - 1]);
            }
        }
    }
}

/// A walk from several roots lists each type at most once, lists only
/// types of the database that were not visited before, and leaves every
/// root and every listed type visited.
pub proof fn lemma_walk_lists_each_type_once(
    m: Entries<REType>,
    roots: Seq<Seq<char>>,
    visited: Set<Seq<char>>,
)
    ensures
        lists_well(m, visited, walk_all(m, roots, visited)),
        forall|k: int| 0 <= k < roots.len() ==> walk_all(m, roots, visited).0.contains(
            #[trigger] roots[k],
        ),
{
    lemma_list_lists_well(m, unvisited(m, visited), roots, visited);
}

} // verus!

verus! {

/// `rank` strictly decreases along every reference from a type of the
/// database to another: the database has no reference cycles.
pub open spec fn ranked_by(m: Entries<REType>, rank: spec_fn(Seq<char>) -> nat) -> bool {
    forall|n: Seq<char>, k: int|
        #![trigger children(map_get(m, n)->0)[k]]
        map_get(m, n) is Some && 0 <= k < children(map_get(m, n)->0).len() && map_get(
            m,
            children(map_get(m, n)->0)[k],
        ) is Some ==> rank(children(map_get(m, n)->0)[k]) < rank(n)
}

/// Every type of the database that a listed type refers to was visited
/// before the walk or is listed before it.
pub open spec fn dependencies_first(
    m: Entries<REType>,
    before: Set<Seq<char>>,
    listed: Seq<Seq<char>>,
) -> bool {
    forall|i: int, k: int|
        #![trigger children(map_get(m, listed[i])->0)[k]]
        0 <= i < listed.len() && map_get(m, listed[i]) is Some && 0 <= k < children(
            map_get(m, listed[i])->0,
        ).len() && map_get(m, children(map_get(m, listed[i])->0)[k]) is Some ==> before.contains(
            children(map_get(m, listed[i])->0)[k],
        ) || exists|j: int| 0 <= j < i && listed[j] == children(map_get(m, listed[i])->0)[k]
}

/// Every name of the database that `r` visited and `before` did not is
/// listed in `r`.
pub open spec fn lists_new_types(
    m: Entries<REType>,
    before: Set<Seq<char>>,
    r: (Set<Seq<char>>, Seq<Seq<char>>),
) -> bool {
    forall|n: Seq<char>|
        #![trigger r.0.contains(n)]
        r.0.contains(n) && !before.contains(n) && map_get(m, n) is Some ==> r.1.contains(n)
}

proof fn lemma_visit_lists_new(m: Entries<REType>, fuel: nat, name: Seq<char>, visited: Set<Seq<char>>)
    requires
        fuel >= unvisited(m, visited),
    ensures
        lists_new_types(m, visited, visit_spec(m, fuel, name, visited)),
    decreases fuel, 0nat,
{
    if !visited.contains(name) {
        if fuel == 0 {
            if map_get(m, name) is Some {
                lemma_get_in_universe(m, name);
                lemma_unvisited_insert(m, visited, name);
            }
        } else if let Some(ty) = map_get(m, name) {
            lemma_get_in_universe(m, name);
            lemma_unvisited_insert(m, visited, name);
            let v1 = visited.insert(name);
            lemma_list_lists_new(m, (fuel - 1) as nat, children(ty), v1);
            let l = visit_list(m, (fuel - 1) as nat, children(ty), v1);
            let e = l.1.push(name);
            assert forall|n: Seq<char>| #![trigger l.0.contains(n)]
                l.0.contains(n) && !visited.contains(n) && map_get(m, n) is Some implies e.contains(
                n,
            ) by {
                if n == name {
                    assert(e[e.len() - 1] == n);
                } else {
                    assert(l.1.contains(n));
                    let j = choose|j: int| 0 <= j < l.1.len() && l.1[j] == n;
                    assert(e[j] == n);
                }
            }
        }
    }
}

proof fn lemma_list_lists_new(
    m: Entries<REType>,
    fuel: nat,
    names: Seq<Seq<char>>,
    visited: Set<Seq<char>>,
)
    requires
        fuel >= unvisited(m, visited),
    ensures
        lists_new_types(m, visited, visit_list(m, fuel, names, visited)),
    decreases fuel, names.len(),
{
    if names.len() > 0 {
        lemma_visit_lists_new(m, fuel, names[0], visited);
        let a = visit_spec(m, fuel, names[0], visited);
        lemma_visit_grows(m, fuel, names[0], visited);
        lemma_unvisited_mono(m, visited, a.0);
        lemma_list_lists_new(m, fuel, names.drop_first(), a.0);
        let b = visit_list(m, fuel, names.drop_first(), a.0);
        let e = a.1 + b.1;
        assert forall|n: Seq<char>| #![trigger b.0.contains(n)]
            b.0.contains(n) && !visited.contains(n) && map_get(m, n) is Some implies e.contains(
            n,
        ) by {
            if a.0.contains(n) {
                assert(a.1.contains(n));
                let j = choose|j: int| 0 <= j < a.1.len() && a.1[j] == n;
                assert(e[j] == n);
            } else {
                assert(b.1.contains(n));
                let j = choose|j: int| 0 <= j < b.1.len() && b.1[j] == n;
                assert(e[a.1.len() + j] == n);
            }
        }
    }
}

proof fn lemma_visit_ranks(
    m: Entries<REType>,
    fuel: nat,
    name: Seq<char>,
    visited: Set<Seq<char>>,
    rank: spec_fn(Seq<char>) -> nat,
)
    requires
        ranked_by(m, rank),
    ensures
        forall|i: int|
            0 <= i < visit_spec(m, fuel, name, visited).1.len() ==> map_get(m, name) is Some && rank(
                #[trigger] visit_spec(m, fuel, name, visited).1[i],
            ) <= rank(name),
    decreases fuel, 0nat,
{
    if !visited.contains(name) && fuel > 0 {
        if let Some(ty) = map_get(m, name) {
            let v1 = visited.insert(name);
            lemma_list_ranks(m, (fuel - 1) as nat, children(ty), v1, rank);
            let l = visit_list(m, (fuel - 1) as nat, children(ty), v1);
            let e = l.1.push(name);
            assert forall|i: int| 0 <= i < e.len() implies rank(#[trigger] e[i]) <= rank(name) by {
                if i < l.1.len() {
                    assert(e[i] == l.1[i]);
                    let k = choose|k: int|
                        0 <= k < children(ty).len() && map_get(m, children(ty)[k]) is Some && rank(
                            l.1[i],
                        ) <= rank(children(ty)[k]);
                    assert(rank(children(map_get(m, name)->0)[k]) < rank(name));
                }
            }
        }
    }
}

proof fn lemma_list_ranks(
    m: Entries<REType>,
    fuel: nat,
    names: Seq<Seq<char>>,
    visited: Set<Seq<char>>,
    rank: spec_fn(Seq<char>) -> nat,
)
    requires
        ranked_by(m, rank),
    ensures
        forall|i: int|
            0 <= i < visit_list(m, fuel, names, visited).1.len() ==> exists|k: int|
                0 <= k < names.len() && map_get(m, names[k]) is Some && rank(
                    #[trigger] visit_list(m, fuel, names, visited).1[i],
                ) <= rank(names[k]),
    decreases fuel, names.len(),
{
    if names.len() > 0 {
        lemma_visit_ranks(m, fuel, names[0], visited, rank);
        let a = visit_spec(m, fuel, names[0], visited);
        let rest = names.drop_first();
        lemma_list_ranks(m, fuel, rest, a.0, rank);
        let b = visit_list(m, fuel, rest, a.0);
        let e = a.1 + b.1;
        assert forall|i: int| 0 <= i < e.len() implies exists|k: int|
            0 <= k < names.len() && map_get(m, names[k]) is Some && rank(#[trigger] e[i]) <= rank(
                names[k],
            ) by {
            if i < a.1.len() {
                assert(e[i] == a.1[i]);
                assert(rank(a.1[i]) <= rank(names[0]));
            } else {
                assert(e[i] == b.1[i - a.1.len()]);
                let k = choose|k: int|
                    0 <= k < rest.len() && map_get(m, rest[k]) is Some && rank(b.1[i - a.1.len()])
                        <= rank(rest[k]);
                assert(rest[k] == names[k + 1]);
            }
        }
    }
}

proof fn lemma_visit_dependencies_first(
    m: Entries<REType>,
    fuel: nat,
    name: Seq<char>,
    visited: Set<Seq<char>>,
    rank: spec_fn(Seq<char>) -> nat,
)
    requires
        ranked_by(m, rank),
        fuel >= unvisited(m, visited),
    ensures
        dependencies_first(m, visited, visit_spec(m, fuel, name, visited).1),
    decreases fuel, 0nat,
{
    if !visited.contains(name) && fuel > 0 {
        if let Some(ty) = map_get(m, name) {
            lemma_get_in_universe(m, name);
            lemma_unvisited_insert(m, visited, name);
            let v1 = visited.insert(name);
            let f1 = (fuel - 1) as nat;
            lemma_list_dependencies_first(m, f1, children(ty), v1, rank);
            lemma_list_ranks(m, f1, children(ty), v1, rank);
            lemma_list_lists_new(m, f1, children(ty), v1);
            lemma_list_lists_well(m, f1, children(ty), v1);
            let l = visit_list(m, f1, children(ty), v1);
            let e = l.1.push(name);
            assert forall|i: int, k: int|
                #![trigger children(map_get(m, e[i])->0)[k]]
                0 <= i < e.len() && map_get(m, e[i]) is Some && 0 <= k < children(
                    map_get(m, e[i])->0,
                ).len() && map_get(m, children(map_get(m, e[i])->0)[k]) is Some implies visited.contains(
                children(map_get(m, e[i])->0)[k],
            ) || exists|j: int| 0 <= j < i && e[j] == children(map_get(m, e[i])->0)[k] by {
                let c = children(map_get(m, e[i])->0)[k];
                if i < l.1.len() {
                    assert(e[i] == l.1[i]);
                    assert(children(map_get(m, l.1[i])->0)[k] == c);
                    let q = choose|q: int|
                        0 <= q < children(ty).len() && map_get(m, children(ty)[q]) is Some && rank(
                            l.1[i],
                        ) <= rank(children(ty)[q]);
                    assert(rank(children(map_get(m, name)->0)[q]) < rank(name));
                    assert(rank(children(map_get(m, l.1[i])->0)[k]) < rank(l.1[i]));
                    if !v1.contains(c) {
                        let j = choose|j: int| 0 <= j < i && l.1[j] == c;
                        assert(e[j] == c);
                    }
                } else {
                    assert(e[i] == name);
                    assert(children(ty)[k] == c);
                    assert(rank(children(map_get(m, name)->0)[k]) < rank(name));
                    assert(l.0.contains(children(ty)[k]));
                    if !v1.contains(c) {
                        assert(l.1.contains(c));
                        let j = choose|j: int| 0 <= j < l.1.len() && l.1[j] == c;
                        assert(e[j] == c);
                    }
                }
            }
        }
    }
}

proof fn lemma_list_dependencies_first(
    m: Entries<REType>,
    fuel: nat,
    names: Seq<Seq<char>>,
    visited: Set<Seq<char>>,
    rank: spec_fn(Seq<char>) -> nat,
)
    requires
        ranked_by(m, rank),
        fuel >= unvisited(m, visited),
    ensures
        dependencies_first(m, visited, visit_list(m, fuel, names, visited).1),
    decreases fuel, names.len(),
{
    if names.len() > 0 {
        lemma_visit_dependencies_first(m, fuel, names[0], visited, rank);
        lemma_visit_lists_new(m, fuel, names[0], visited);
        let a = visit_spec(m, fuel, names[0], visited);
        lemma_visit_grows(m, fuel, names[0], visited);
        lemma_unvisited_mono(m, visited, a.0);
        let rest = names.drop_first();
        lemma_list_dependencies_first(m, fuel, rest, a.0, rank);
        let b = visit_list(m, fuel, rest, a.0);
        let e = a.1 + b.1;
        assert forall|i: int, k: int|
            #![trigger children(map_get(m, e[i])->0)[k]]
            0 <= i < e.len() && map_get(m, e[i]) is Some && 0 <= k < children(
                map_get(m, e[i])->0,
            ).len() && map_get(m, children(map_get(m, e[i])->0)[k]) is Some implies visited.contains(
            children(map_get(m, e[i])->0)[k],
        ) || exists|j: int| 0 <= j < i && e[j] == children(map_get(m, e[i])->0)[k] by {
            let c = children(map_get(m, e[i])->0)[k];
            if i < a.1.len() {
                assert(e[i] == a.1[i]);
                assert(children(map_get(m, a.1[i])->0)[k] == c);
                if !visited.contains(c) {
                    let j = choose|j: int| 0 <= j < i && a.1[j] == c;
                    assert(e[j] == c);
                }
            } else {
                let i2 = i - a.1.len();
                assert(e[i] == b.1[i2]);
                assert(children(map_get(m, b.1[i2])->0)[k] == c);
                if !visited.contains(c) {
                    if a.0.contains(c) {
                        assert(a.1.contains(c));
                        let j = choose|j: int| 0 <= j < a.1.len() && a.1[j] == c;
                        assert(e[j] == c);
                    } else {
                        let j = choose|j: int| 0 <= j < i2 && b.1[j] == c;
                        assert(e[a.1.len() + j] == c);
                    }
                }
            }
        }
    }
}

/// In a database without reference cycles (`rank` decreasing along every
/// reference), a walk lists each type after every type of the database it
/// refers to, unless that type was visited before the walk.
pub proof fn lemma_walk_lists_dependencies_first(
    m: Entries<REType>,
    roots: Seq<Seq<char>>,
    visited: Set<Seq<char>>,
    rank: spec_fn(Seq<char>) -> nat,
)
    requires
        ranked_by(m, rank),
    ensures
        dependencies_first(m, visited, walk_all(m, roots, visited).1),
{
    lemma_list_dependencies_first(m, unvisited(m, visited), roots, visited, rank);
}

} // verus!
