//! The rescan loop's decision: which resource servers to start.
use vstd::prelude::*;

use crate::text::str_eq;
use crate::vfio::{is_row_name, keys_of, resource_table, resources, Naming, ResourceMap};

verus! {

/// The names a server should exist for: every discovered name and, in alias
/// mode, every row name of the RESOURCES table (so the kubelet sees each
/// alias resource, zero capacity included, whatever the deployment order).
/// SKU names only exist once a device is discovered.
pub open spec fn desired_names(discovered: Seq<Seq<char>>, naming: Naming) -> Seq<Seq<char>> {
    match naming {
        Naming::Alias => discovered + resource_table().map_values(|r: crate::vfio::Resource| r.name@),
        Naming::Sku => discovered,
    }
}

/// The desired names to start a server for, in order: those with no server
/// running, each once (starting one marks it running).
pub open spec fn start_order(desired: Seq<Seq<char>>, running: Set<Seq<char>>) -> Seq<Seq<char>>
    decreases desired.len(),
{
    if desired.len() == 0 {
        Seq::empty()
    } else if running.contains(desired[0]) {
        start_order(desired.drop_first(), running)
    } else {
        seq![desired[0]] + start_order(desired.drop_first(), running.insert(desired[0]))
    }
}

proof fn lemma_start_order(desired: Seq<Seq<char>>, running: Set<Seq<char>>)
    ensures
        start_order(desired, running).no_duplicates(),
        forall|i: int| 0 <= i < start_order(desired, running).len() ==> !running.contains(#[trigger] start_order(desired, running)[i]) && desired.contains(start_order(desired, running)[i]),
        forall|k: int| 0 <= k < desired.len() ==> running.contains(#[trigger] desired[k]) || start_order(desired, running).contains(desired[k]),
    decreases desired.len(),
{
    if desired.len() > 0 {
        let d = desired[0];
        let rest = desired.drop_first();
        if running.contains(d) {
            lemma_start_order(rest, running);
            let out = start_order(desired, running);
            assert(out == start_order(rest, running));
            assert forall|i: int| 0 <= i < out.len() implies !running.contains(#[trigger] out[i]) && desired.contains(out[i]) by {
                let k = choose|k: int| 0 <= k < rest.len() && rest[k] == out[i];
                assert(desired[k + 1] == rest[k]);
            }
            assert forall|k: int| 0 <= k < desired.len() implies running.contains(#[trigger] desired[k]) || out.contains(desired[k]) by {
                if k > 0 {
                    assert(desired[k] == rest[k - 1]);
                    assert(running.contains(rest[k - 1]) || start_order(rest, running).contains(rest[k - 1]));
                } else {
                    assert(running.contains(d));
                }
            }
        } else {
            let run2 = running.insert(d);
            lemma_start_order(rest, run2);
            let tail = start_order(rest, run2);
            let out = start_order(desired, running);
            assert(out == seq![d] + tail);
            assert forall|i: int, j: int| 0 <= i < out.len() && 0 <= j < out.len() && i != j implies out[i] != out[j] by {
                if i == 0 {
                    assert(!run2.contains(out[j]));
                } else if j == 0 {
                    assert(!run2.contains(out[i]));
                } else {
                    assert(out[i] == tail[i - 1]);
                    assert(out[j] == tail[j - 1]);
                }
            }
            assert forall|i: int| 0 <= i < out.len() implies !running.contains(#[trigger] out[i]) && desired.contains(out[i]) by {
                if i == 0 {
                    assert(desired[0] == d);
                } else {
                    assert(out[i] == tail[i - 1]);
                    let k = choose|k: int| 0 <= k < rest.len() && rest[k] == tail[i - 1];
                    assert(desired[k + 1] == rest[k]);
                }
            }
            assert forall|k: int| 0 <= k < desired.len() implies running.contains(#[trigger] desired[k]) || out.contains(desired[k]) by {
                if k == 0 {
                    assert(out[0] == d);
                } else {
                    assert(desired[k] == rest[k - 1]);
                    assert(run2.contains(rest[k - 1]) || tail.contains(rest[k - 1]));
                    if desired[k] == d {
                        assert(out[0] == d);
                    } else if !run2.contains(desired[k]) {
                        let m = choose|m: int| 0 <= m < tail.len() && tail[m] == desired[k];
                        assert(out[m + 1] == tail[m]);
                    }
                }
            }
        }
    }
}

pub open spec fn string_views(v: Seq<String>) -> Seq<Seq<char>> {
    v.map_values(|s: String| s@)
}

fn contains_name(v: &Vec<String>, name: &str) -> (r: bool)
    ensures
        r == string_views(v@).contains(name@),
{
    let mut i: usize = 0;
    while i < v.len()
        invariant
            i <= v@.len(),
            forall|j: int| 0 <= j < i ==> v@[j]@ != name@,
        decreases v@.len() - i,
    {
        if str_eq(v[i].as_str(), name) {
            assert(string_views(v@)[i as int] == name@);
            return true;
        }
        i = i + 1;
    }
    assert forall|j: int| 0 <= j < string_views(v@).len() implies string_views(v@)[j] != name@ by {
        assert(string_views(v@)[j] == v@[j]@);
    }
    false
}

/// Reconcile step: given what a rescan discovered and the names whose servers
/// are running, the names to start a server for now.  Servers are never
/// stopped — a name whose devices vanish keeps advertising zero capacity.
pub fn names_to_start(discovered: ResourceMap, naming: Naming, running: &Vec<String>) -> (r: Vec<String>)
    ensures
        string_views(r@) == start_order(
            desired_names(keys_of(discovered@), naming),
            string_views(running@).to_set(),
        ),
        // each name is started once, none already running, and no desired name is missed
        string_views(r@).no_duplicates(),
        forall|i: int| 0 <= i < r@.len() ==> !string_views(running@).contains(#[trigger] string_views(r@)[i]),
        forall|k: int| 0 <= k < desired_names(keys_of(discovered@), naming).len()
            ==> string_views(running@).contains(#[trigger] desired_names(keys_of(discovered@), naming)[k])
            || string_views(r@).contains(desired_names(keys_of(discovered@), naming)[k]),
        // every discovered name without a running server is started, whatever the naming
        forall|i: int| 0 <= i < keys_of(discovered@).len() ==> string_views(running@).contains(
            #[trigger] keys_of(discovered@)[i]) || string_views(r@).contains(keys_of(discovered@)[i]),
        // in alias mode so is every RESOURCES row name
        naming is Alias ==> forall|k: int| 0 <= k < resource_table().len() ==> string_views(running@).contains(
            #[trigger] resource_table()[k].name@) || string_views(r@).contains(resource_table()[k].name@),
        // and nothing else is started
        forall|i: int| 0 <= i < r@.len() ==> keys_of(discovered@).contains(#[trigger] string_views(r@)[i]) || (
        naming is Alias && is_row_name(resource_table(), string_views(r@)[i])),
{
    let ghost keys = keys_of(discovered@);
    let mut desired = discovered.into_keys();
    assert(string_views(desired@) =~= keys);
    if let Naming::Alias = naming {
        let rows = resources();
        let mut k: usize = 0;
        while k < rows.len()
            invariant
                k <= rows@.len(),
                rows@ == resource_table(),
                string_views(desired@) == keys + resource_table().map_values(|r: crate::vfio::Resource| r.name@).take(k as int),
            decreases rows@.len() - k,
        {
            let ghost before = string_views(desired@);
            desired.push(rows[k].name.to_owned());
            assert(string_views(desired@) =~= before.push(rows@[k as int].name@));
            assert(resource_table().map_values(|r: crate::vfio::Resource| r.name@).take(k + 1) =~= resource_table().map_values(|r: crate::vfio::Resource| r.name@).take(k as int).push(rows@[k as int].name@));
            assert(string_views(desired@) =~= keys + resource_table().map_values(|r: crate::vfio::Resource| r.name@).take(k + 1));
            k = k + 1;
        }
        assert(resource_table().map_values(|r: crate::vfio::Resource| r.name@).take(k as int) =~= resource_table().map_values(|r: crate::vfio::Resource| r.name@));
    }
    let ghost all = string_views(desired@);
    let ghost r0 = string_views(running@).to_set();
    assert(all == desired_names(keys, naming));
    let mut started: Vec<String> = Vec::new();
    let mut i: usize = 0;
    assert(all.skip(0) =~= all);
    assert(string_views(started@) =~= Seq::<Seq<char>>::empty());
    assert(r0 + string_views(started@).to_set() =~= r0);
    assert(Seq::<Seq<char>>::empty() + start_order(all, r0) =~= start_order(all, r0));
    while i < desired.len()
        invariant
            i <= desired@.len(),
            all == string_views(desired@),
            r0 == string_views(running@).to_set(),
            start_order(all, r0) == string_views(started@) + start_order(all.skip(i as int), r0 + string_views(started@).to_set()),
        decreases desired@.len() - i,
    {
        let ghost rest = all.skip(i as int);
        let ghost seen = r0 + string_views(started@).to_set();
        assert(rest[0] == desired@[i as int]@);
        assert(rest.drop_first() =~= all.skip(i + 1));
        let name = desired[i].as_str();
        let in_running = contains_name(running, name);
        let in_started = contains_name(&started, name);
        assert(string_views(running@).to_set().contains(name@) == string_views(running@).contains(name@));
        assert(string_views(started@).to_set().contains(name@) == string_views(started@).contains(name@));
        assert(seen.contains(name@) == (in_running || in_started));
        assert(rest[0] == name@);
        if in_running || in_started {
            assert(start_order(rest, seen) == start_order(all.skip(i + 1), seen));
        } else {
            assert(start_order(rest, seen) == seq![name@] + start_order(all.skip(i + 1), seen.insert(name@)));
            let ghost before = string_views(started@);
            started.push(name.to_owned());
            assert(string_views(started@) =~= before.push(name@));
            proof {
                before.lemma_push_to_set_commute(name@);
            }
            assert(r0 + string_views(started@).to_set() =~= seen.insert(name@));
            assert(string_views(started@) + start_order(all.skip(i + 1), seen.insert(name@)) =~= before + (seq![name@] + start_order(all.skip(i + 1), seen.insert(name@))));
        }
        i = i + 1;
    }
    assert(all.skip(desired@.len() as int) =~= Seq::<Seq<char>>::empty());
    assert(string_views(started@) + Seq::<Seq<char>>::empty() =~= string_views(started@));
    proof {
        lemma_start_order(all, r0);
        let out = string_views(started@);
        let rows = resource_table().map_values(|r: crate::vfio::Resource| r.name@);
        assert forall|i: int| 0 <= i < keys.len() implies string_views(running@).contains(#[trigger] keys[i])
            || out.contains(keys[i]) by {
            assert(all[i] == keys[i]);
            assert(r0.contains(keys[i]) == string_views(running@).contains(keys[i]));
        }
        if naming is Alias {
            assert forall|k: int| 0 <= k < resource_table().len() implies string_views(running@).contains(
                #[trigger] resource_table()[k].name@) || out.contains(resource_table()[k].name@) by {
                assert(all[keys.len() + k] == rows[k]);
                assert(r0.contains(rows[k]) == string_views(running@).contains(rows[k]));
            }
        }
        assert forall|i: int| 0 <= i < out.len() implies keys.contains(#[trigger] out[i]) || (naming is Alias
            && is_row_name(resource_table(), out[i])) by {
            assert(all.contains(out[i]));
            let j = choose|j: int| 0 <= j < all.len() && all[j] == out[i];
            if j < keys.len() {
                assert(keys[j] == out[i]);
            } else {
                assert(rows[j - keys.len()] == out[i]);
                assert(resource_table()[j - keys.len()].name@ == out[i]);
            }
        }
    }
    started
}

} // verus!
