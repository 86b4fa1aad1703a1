//! The concurrent hash tables of the `dashmap` crate that hold the state.
//!
//! A table is seen as the map from keys to contents that it holds. The functions here hand
//! out copies, never references into a table, so no lock outlives a call.

use crate::domain::{Location, RobotState, RobotView, Task, TaskView};
use dashmap::DashMap;
use std::collections::VecDeque;
use vstd::prelude::*;

verus! {

/// The sharded hash table of the `dashmap` crate.
#[verifier::external_type_specification]
#[verifier::external_body]
#[verifier::reject_recursive_types(K)]
#[verifier::reject_recursive_types(V)]
#[verifier::reject_recursive_types(S)]
pub struct ExDashMap<K, V, S>(DashMap<K, V, S>);

/// What a table of robots holds.
pub uninterp spec fn robot_table(table: DashMap<u64, RobotState>) -> Map<u64, RobotView>;

/// What a table of tasks holds.
pub uninterp spec fn task_table(table: DashMap<u64, Task>) -> Map<u64, TaskView>;

/// What a table of trails holds.
pub uninterp spec fn trail_table(table: DashMap<u64, VecDeque<(u64, Location)>>) -> Map<
    u64,
    Seq<(u64, Location)>,
>;

/// Whether `keys` names each element of `set` once, and nothing else.
pub open spec fn enumerates(keys: Seq<u64>, set: Set<u64>) -> bool {
    keys.no_duplicates() && keys.to_set() == set
}

/// Those of the first `n` keys that are in `which`, in their order.
pub open spec fn picked(keys: Seq<u64>, which: Set<u64>, n: nat) -> Seq<u64>
    decreases n,
{
    if n == 0 {
        Seq::empty()
    } else {
        let before = picked(keys, which, (n - 1) as nat);
        if which.contains(keys[n - 1]) {
            before.push(keys[n - 1])
        } else {
            before
        }
    }
}

/// The first `n` keys that are in `which` are picked, each once.
proof fn lemma_picked_first(keys: Seq<u64>, which: Set<u64>, n: nat)
    requires
        keys.no_duplicates(),
        n <= keys.len(),
    ensures
        picked(keys, which, n).no_duplicates(),
        forall|k: u64| #[trigger]
            picked(keys, which, n).contains(k) <==> which.contains(k) && keys.take(
                n as int,
            ).contains(k),
    decreases n,
{
    let now = picked(keys, which, n);
    if n > 0 {
        let m = (n - 1) as nat;
        lemma_picked_first(keys, which, m);
        let before = picked(keys, which, m);
        let last = keys[m as int];
        let first = keys.take(m as int);
        let all = keys.take(n as int);
        assert(!first.contains(last)) by {
            if first.contains(last) {
                let j = first.index_of(last);
                assert(keys[j] == last);
            }
        }
        assert(!before.contains(last));
        assert(all =~= first.push(last));
        assert forall|k: u64| #[trigger] now.contains(k) <==> which.contains(k) && all.contains(
            k,
        ) by {
            assert(before.contains(k) <==> which.contains(k) && first.contains(k));
            assert(all[m as int] == last);
            if first.contains(k) {
                assert(all[first.index_of(k)] == k);
            }
            if all.contains(k) && k != last {
                assert(first[all.index_of(k)] == k);
            }
            if before.contains(k) {
                assert(now[before.index_of(k)] == k);
            }
            if which.contains(last) {
                assert(now[before.len() as int] == last);
                if now.contains(k) && k != last {
                    assert(before[now.index_of(k)] == k);
                }
            }
        }
    }
}

/// Picking from an enumeration gives an enumeration.
pub proof fn lemma_picked(keys: Seq<u64>, all: Set<u64>, which: Set<u64>)
    requires
        enumerates(keys, all),
        which.subset_of(all),
    ensures
        enumerates(picked(keys, which, keys.len()), which),
{
    let out = picked(keys, which, keys.len());
    lemma_picked_first(keys, which, keys.len());
    assert(keys.take(keys.len() as int) =~= keys);
    assert forall|k: u64| out.to_set().contains(k) <==> which.contains(k) by {
        assert(out.contains(k) <==> which.contains(k) && keys.contains(k));
        assert(keys.to_set().contains(k) <==> all.contains(k));
    }
    assert(out.to_set() =~= which);
}

// ---------------------------------------------------------------- robots
/// `DashMap::new`: the table is empty.
#[verifier::external_body]
pub(crate) fn robots_new() -> (table: DashMap<u64, RobotState>)
    ensures
        forall|k: u64| !(#[trigger] robot_table(table).contains_key(k)),
{
    DashMap::new()
}

/// `DashMap::insert`: the key then holds the value, whatever it held before, and all other
/// keys are as they were.
#[verifier::external_body]
pub(crate) fn robots_insert(table: &mut DashMap<u64, RobotState>, key: u64, value: RobotState)
    ensures
        robot_table(*final(table)) == robot_table(*old(table)).insert(key, value@),
{
    table.insert(key, value);
}

/// `DashMap::get`: a copy of what the key holds, or nothing for a key that holds nothing.
#[verifier::external_body]
pub(crate) fn robots_get(table: &DashMap<u64, RobotState>, key: u64) -> (r: Option<RobotState>)
    ensures
        r is Some <==> robot_table(*table).contains_key(key),
        r matches Some(value) ==> value@ == robot_table(*table)[key],
{
    table.get(&key).map(|e| e.value().clone())
}

/// `DashMap::iter`: a copy of every entry, each key once, in no particular order.
#[verifier::external_body]
pub(crate) fn robots_entries(table: &DashMap<u64, RobotState>) -> (r: Vec<(u64, RobotState)>)
    ensures
        enumerates(r@.map_values(|e: (u64, RobotState)| e.0), robot_table(*table).dom()),
        forall|i: int| 0 <= i < r@.len() ==> (#[trigger] r@[i]).1@ == robot_table(*table)[r@[i].0],
{
    table.iter().map(|e| (*e.key(), e.value().clone())).collect()
}

/// `DashMap::len`: the number of keys.
#[verifier::external_body]
pub(crate) fn robots_len(table: &DashMap<u64, RobotState>) -> (r: usize)
    ensures
        r == robot_table(*table).dom().len(),
{
    table.len()
}

// ---------------------------------------------------------------- tasks
/// `DashMap::new`: the table is empty.
#[verifier::external_body]
pub(crate) fn tasks_new() -> (table: DashMap<u64, Task>)
    ensures
        forall|k: u64| !(#[trigger] task_table(table).contains_key(k)),
{
    DashMap::new()
}

/// `DashMap::insert`: the key then holds the value, whatever it held before, and all other
/// keys are as they were.
#[verifier::external_body]
pub(crate) fn tasks_insert(table: &mut DashMap<u64, Task>, key: u64, value: Task)
    ensures
        task_table(*final(table)) == task_table(*old(table)).insert(key, value@),
{
    table.insert(key, value);
}

/// `DashMap::get`: a copy of what the key holds, or nothing for a key that holds nothing.
#[verifier::external_body]
pub(crate) fn tasks_get(table: &DashMap<u64, Task>, key: u64) -> (r: Option<Task>)
    ensures
        r is Some <==> task_table(*table).contains_key(key),
        r matches Some(value) ==> value@ == task_table(*table)[key],
{
    table.get(&key).map(|e| e.value().clone())
}

/// `DashMap::iter`: a copy of every entry, each key once, in no particular order.
#[verifier::external_body]
pub(crate) fn tasks_entries(table: &DashMap<u64, Task>) -> (r: Vec<(u64, Task)>)
    ensures
        enumerates(r@.map_values(|e: (u64, Task)| e.0), task_table(*table).dom()),
        forall|i: int| 0 <= i < r@.len() ==> (#[trigger] r@[i]).1@ == task_table(*table)[r@[i].0],
{
    table.iter().map(|e| (*e.key(), e.value().clone())).collect()
}

/// `DashMap::len`: the number of keys.
#[verifier::external_body]
pub(crate) fn tasks_len(table: &DashMap<u64, Task>) -> (r: usize)
    ensures
        r == task_table(*table).dom().len(),
{
    table.len()
}

// ---------------------------------------------------------------- trails
/// `DashMap::new`: the table is empty.
#[verifier::external_body]
pub(crate) fn trails_new() -> (table: DashMap<u64, VecDeque<(u64, Location)>>)
    ensures
        forall|k: u64| !(#[trigger] trail_table(table).contains_key(k)),
{
    DashMap::new()
}

/// `DashMap::insert`: the key then holds the value, whatever it held before, and all other
/// keys are as they were.
#[verifier::external_body]
pub(crate) fn trails_insert(
    table: &mut DashMap<u64, VecDeque<(u64, Location)>>,
    key: u64,
    value: VecDeque<(u64, Location)>,
)
    ensures
        trail_table(*final(table)) == trail_table(*old(table)).insert(key, value@),
{
    table.insert(key, value);
}

/// `DashMap::get`: a copy of what the key holds, or nothing for a key that holds nothing.
#[verifier::external_body]
pub(crate) fn trails_get(table: &DashMap<u64, VecDeque<(u64, Location)>>, key: u64) -> (r: Option<
    VecDeque<(u64, Location)>,
>)
    ensures
        r is Some <==> trail_table(*table).contains_key(key),
        r matches Some(value) ==> value@ == trail_table(*table)[key],
{
    table.get(&key).map(|e| e.value().clone())
}

} // verus!
