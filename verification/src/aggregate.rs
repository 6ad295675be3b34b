//! The item aggregator: folds a typed-line sequence into the
//! insertion-ordered list of items, one per staged (group, IP) key, tracking
//! group scope by matched `#[name]` delimiter pairs and deduplicating host
//! names within each item.

use vstd::prelude::*;
use indexmap::IndexMap;
use crate::model::{
    clone_host,
    clone_hosts,
    system_string,
    system_name,
    key,
    key_of,
    item_key,
    Host,
    HostV,
    Item,
    ItemV,
    Line,
    LineV,
};
use crate::ordmap::{im_get, im_insert, im_map, im_new};
use crate::text::string_eq;

verus! {

/// The view of an optional scope filter.
pub open spec fn scope_view(g: Option<&str>) -> Option<Seq<char>> {
    match g {
        Some(s) => Some(s@),
        None => None,
    }
}

/// A staged entry: the key it was inserted under, and its item.
pub open spec fn entries_values(entries: Seq<(Seq<char>, ItemV)>) -> Seq<ItemV> {
    entries.map_values(|e: (Seq<char>, ItemV)| e.1)
}

/// The position of the first entry with the given key, or -1.
pub open spec fn find_key(entries: Seq<(Seq<char>, ItemV)>, k: Seq<char>) -> int
    decreases entries.len(),
{
    if entries.len() == 0 {
        -1
    } else if entries[0].0 == k {
        0
    } else {
        let r = find_key(entries.drop_first(), k);
        if r < 0 {
            -1
        } else {
            r + 1
        }
    }
}

/// Merges an item into an entry list: an existing entry with the same key has
/// the item's hosts appended (its own IP and group stand), a new key is
/// appended at the end.
pub open spec fn merge_entry(entries: Seq<(Seq<char>, ItemV)>, k: Seq<char>, it: ItemV) -> Seq<
    (Seq<char>, ItemV),
> {
    let j = find_key(entries, k);
    if j >= 0 {
        entries.update(
            j,
            (
                entries[j].0,
                ItemV {
                    ip: entries[j].1.ip,
                    hosts: entries[j].1.hosts + it.hosts,
                    group: entries[j].1.group,
                },
            ),
        )
    } else {
        entries.push((k, it))
    }
}

/// Host records of one entry line: every name tagged with the line's flag.
pub open spec fn hosts_of(hs: Seq<Seq<char>>, enabled: bool) -> Seq<HostV> {
    hs.map_values(|c: Seq<char>| HostV { content: c, enabled })
}

/// The aggregation state: the current group, the staging bucket of the open
/// scope, and the flushed result.
pub ghost struct AggState {
    pub cur: Seq<char>,
    pub tmp: Seq<(Seq<char>, ItemV)>,
    pub out: Seq<(Seq<char>, ItemV)>,
}

/// Flushes the staging bucket into the result, entry by entry, in order.
pub open spec fn flush(out: Seq<(Seq<char>, ItemV)>, tmp: Seq<(Seq<char>, ItemV)>) -> Seq<
    (Seq<char>, ItemV),
>
    decreases tmp.len(),
{
    if tmp.len() == 0 {
        out
    } else {
        flush(merge_entry(out, tmp[0].0, tmp[0].1), tmp.drop_first())
    }
}

/// The end-of-input flush: without a scope filter, an item still staged when
/// the input ends belongs to an unterminated group and reverts to the default
/// group — under the default group's key, so that it merges with an item the
/// default group already holds for the same IP.
pub open spec fn flush_end(
    out: Seq<(Seq<char>, ItemV)>,
    tmp: Seq<(Seq<char>, ItemV)>,
    scope: Option<Seq<char>>,
) -> Seq<(Seq<char>, ItemV)>
    decreases tmp.len(),
{
    if tmp.len() == 0 {
        out
    } else {
        let v = tmp[0].1;
        let v2 = if scope is None {
            ItemV { ip: v.ip, hosts: v.hosts, group: system_name() }
        } else {
            v
        };
        let k2 = if scope is None {
            key_of(system_name(), v.ip)
        } else {
            tmp[0].0
        };
        flush_end(merge_entry(out, k2, v2), tmp.drop_first(), scope)
    }
}

/// One aggregation step, per line kind: an entry line stages its hosts under
/// the (current group, IP) key; a delimiter of the reserved name, or one seen
/// inside a different group, or any delimiter under a scope filter, is
/// ignored; otherwise a delimiter flushes the staging bucket and toggles the
/// scope open (to its name) or closed (back to the default group).
pub open spec fn agg_step(st: AggState, l: LineV, scope: Option<Seq<char>>) -> AggState {
    match l {
        LineV::Valid { ip, hosts, enabled } => {
            if hosts.len() == 0 {
                st
            } else {
                let it = ItemV { ip, hosts: hosts_of(hosts, enabled), group: st.cur };
                AggState { cur: st.cur, tmp: merge_entry(st.tmp, key_of(st.cur, ip), it), out: st.out }
            }
        },
        LineV::Group(name) => {
            if scope is Some || name == system_name() || (st.cur != system_name() && st.cur
                != name) {
                st
            } else {
                AggState {
                    cur: if st.cur == name {
                        system_name()
                    } else {
                        name
                    },
                    tmp: Seq::<(Seq<char>, ItemV)>::empty(),
                    out: flush(st.out, st.tmp),
                }
            }
        },
        _ => st,
    }
}

pub open spec fn agg_init(scope: Option<Seq<char>>) -> AggState {
    AggState {
        cur: match scope {
            Some(g) => g,
            None => system_name(),
        },
        tmp: Seq::<(Seq<char>, ItemV)>::empty(),
        out: Seq::<(Seq<char>, ItemV)>::empty(),
    }
}

pub open spec fn agg_scan(lines: Seq<LineV>, scope: Option<Seq<char>>) -> AggState
    decreases lines.len(),
{
    if lines.len() == 0 {
        agg_init(scope)
    } else {
        agg_step(agg_scan(lines.drop_last(), scope), lines.last(), scope)
    }
}

/// The set of host names occurring in a host list.
pub open spec fn contents_of(hs: Seq<HostV>) -> Set<Seq<char>> {
    Set::new(|c: Seq<char>| exists|j: int| 0 <= j < hs.len() && (#[trigger] hs[j]).content == c)
}

/// Keeps the first occurrence of each host name, dropping later duplicates
/// whatever their own flag.
pub open spec fn dedup_from(hs: Seq<HostV>, seen: Set<Seq<char>>) -> Seq<HostV>
    decreases hs.len(),
{
    if hs.len() == 0 {
        Seq::<HostV>::empty()
    } else if seen.contains(hs[0].content) {
        dedup_from(hs.drop_first(), seen)
    } else {
        seq![hs[0]] + dedup_from(hs.drop_first(), seen.insert(hs[0].content))
    }
}

pub open spec fn dedup_hosts(hs: Seq<HostV>) -> Seq<HostV> {
    dedup_from(hs, Set::<Seq<char>>::empty())
}

pub open spec fn dedup_items(items: Seq<ItemV>) -> Seq<ItemV> {
    items.map_values(
        |it: ItemV| ItemV { ip: it.ip, hosts: dedup_hosts(it.hosts), group: it.group },
    )
}

/// The whole aggregation: scan every line, flush what is still staged, then
/// deduplicate each item's hosts.
pub open spec fn aggregate_sp(lines: Seq<LineV>, scope: Option<Seq<char>>) -> Seq<ItemV> {
    let st = agg_scan(lines, scope);
    dedup_items(entries_values(flush_end(st.out, st.tmp, scope)))
}

/// The index map holds exactly the entry keys, each mapped to its position.
pub open spec fn map_indexes(m: Map<Seq<char>, usize>, entries: Seq<(Seq<char>, ItemV)>) -> bool {
    &&& (forall|k: Seq<char>| #[trigger]
        m.contains_key(k) ==> 0 <= m[k] < entries.len() && entries[m[k] as int].0 == k)
    &&& (forall|j: int| 0 <= j < entries.len() ==> m.contains_key(#[trigger] entries[j].0))
    &&& (forall|j1: int, j2: int|
        0 <= j1 < j2 < entries.len() ==> entries[j1].0 != entries[j2].0)
}

/// With unique keys, the entry a key maps to is the first (and only) one.
pub(crate) proof fn lemma_find_key_at(entries: Seq<(Seq<char>, ItemV)>, k: Seq<char>, j: int)
    requires
        0 <= j < entries.len(),
        entries[j].0 == k,
        forall|j1: int, j2: int| 0 <= j1 < j2 < entries.len() ==> entries[j1].0 != entries[j2].0,
    ensures
        find_key(entries, k) == j,
    decreases entries.len(),
{
    if j == 0 {
    } else {
        assert(entries[0].0 != k);
        lemma_find_key_at(entries.drop_first(), k, j - 1);
    }
}

/// A key no entry carries is not found.
pub(crate) proof fn lemma_find_key_none(entries: Seq<(Seq<char>, ItemV)>, k: Seq<char>)
    requires
        forall|j: int| 0 <= j < entries.len() ==> (#[trigger] entries[j]).0 != k,
    ensures
        find_key(entries, k) == -1,
    decreases entries.len(),
{
    if entries.len() > 0 {
        lemma_find_key_none(entries.drop_first(), k);
    }
}

/// Merges one item into the entry vector under the given key, keeping the
/// index map in step.
fn merge_keyed(
    items: &mut Vec<Item>,
    idx: &mut IndexMap<String, usize>,
    k: String,
    it: Item,
    Ghost(entries): Ghost<Seq<(Seq<char>, ItemV)>>,
) -> (res: Ghost<Seq<(Seq<char>, ItemV)>>)
    requires
        map_indexes(im_map(*old(idx)), entries),
        old(items).deep_view() == entries_values(entries),
    ensures
        res@ == merge_entry(entries, k@, it.deep_view()),
        map_indexes(im_map(*final(idx)), res@),
        final(items).deep_view() == entries_values(res@),
{
    let ghost itv: ItemV = it.deep_view();
    proof {
        assert(entries_values(entries).len() == entries.len());
        assert(forall|j2: int|
            0 <= j2 < entries.len() ==> #[trigger] entries_values(entries)[j2] == entries[j2].1);
        assert(forall|j2: int|
            0 <= j2 < entries.len() ==> #[trigger] old(items).deep_view()[j2] == old(
                items,
            )@[j2].deep_view());
    }
    match im_get(idx, &k) {
        Some(j) => {
            proof {
                lemma_find_key_at(entries, k@, j as int);
            }
            let old_it = items.remove(j);
            proof {
                assert(old_it == old(items)@[j as int]);
                assert(old(items).deep_view()[j as int] == old(items)@[j as int].deep_view());
                assert(old(items).deep_view()[j as int] == entries_values(entries)[j as int]);
                assert(old_it.deep_view() == entries[j as int].1);
            }
            let Item { ip, hosts, group } = old_it;
            let mut hosts = hosts;
            let mut add = it.hosts;
            let ghost hv: Seq<HostV> = hosts.deep_view();
            let ghost av: Seq<HostV> = add.deep_view();
            hosts.append(&mut add);
            proof {
                assert(hosts.deep_view() =~~= hv + av);
                assert(hv == entries[j as int].1.hosts);
                assert(av == itv.hosts);
            }
            let merged = Item { ip, hosts, group };
            let ghost mv: ItemV = merged.deep_view();
            items.insert(j, merged);
            let ghost res0: Seq<(Seq<char>, ItemV)> = merge_entry(entries, k@, itv);
            proof {
                assert(mv == (ItemV {
                    ip: entries[j as int].1.ip,
                    hosts: entries[j as int].1.hosts + itv.hosts,
                    group: entries[j as int].1.group,
                }));
                assert(res0 == entries.update(j as int, (entries[j as int].0, mv)));
                assert(items@ =~= old(items)@.update(j as int, merged));
                assert(items.deep_view() =~~= entries_values(res0)) by {
                    assert forall|j2: int| 0 <= j2 < res0.len() implies #[trigger] items.deep_view()[j2]
                        == entries_values(res0)[j2] by {
                        assert(items.deep_view()[j2] == items@[j2].deep_view());
                        assert(entries_values(res0)[j2] == res0[j2].1);
                        if j2 != j as int {
                            assert(items@[j2] == old(items)@[j2]);
                            assert(old(items).deep_view()[j2] == entries[j2].1);
                        }
                    }
                    assert(items.deep_view().len() == entries_values(res0).len());
                }
                assert(map_indexes(im_map(*idx), res0)) by {
                    assert(forall|j2: int|
                        0 <= j2 < res0.len() ==> (#[trigger] res0[j2]).0 == entries[j2].0);
                }
            }
            Ghost(res0)
        },
        None => {
            proof {
                lemma_find_key_none(entries, k@);
            }
            let n = items.len();
            im_insert(idx, k.clone(), n);
            items.push(it);
            let ghost res0: Seq<(Seq<char>, ItemV)> = entries.push((k@, itv));
            proof {
                assert(res0 == merge_entry(entries, k@, itv));
                assert(items@ == old(items)@.push(it));
                assert(items.deep_view() =~~= entries_values(res0)) by {
                    assert forall|j2: int| 0 <= j2 < res0.len() implies #[trigger] items.deep_view()[j2]
                        == entries_values(res0)[j2] by {
                        assert(items.deep_view()[j2] == items@[j2].deep_view());
                        assert(entries_values(res0)[j2] == res0[j2].1);
                        if j2 < n as int {
                            assert(items@[j2] == old(items)@[j2]);
                            assert(old(items).deep_view()[j2] == entries[j2].1);
                        }
                    }
                    assert(items.deep_view().len() == entries_values(res0).len());
                }
                assert(map_indexes(im_map(*idx), res0)) by {
                    assert(im_map(*idx) == im_map(*old(idx)).insert(k@, n));
                }
            }
            Ghost(res0)
        },
    }
}

/// A found key names an in-range entry that carries it.
proof fn lemma_find_key_props(entries: Seq<(Seq<char>, ItemV)>, k: Seq<char>)
    ensures
        find_key(entries, k) == -1 || (0 <= find_key(entries, k) < entries.len() && entries[find_key(
            entries,
            k,
        )].0 == k),
    decreases entries.len(),
{
    if entries.len() > 0 && entries[0].0 != k {
        lemma_find_key_props(entries.drop_first(), k);
    }
}

/// An entry staged under its item's own key keeps that shape through a merge
/// under an item's own key.
proof fn lemma_merge_keeps_own_keys(entries: Seq<(Seq<char>, ItemV)>, k: Seq<char>, it: ItemV)
    requires
        forall|j: int|
            0 <= j < entries.len() ==> (#[trigger] entries[j]).0 == item_key(entries[j].1),
        k == item_key(it),
    ensures
        forall|j: int|
            0 <= j < merge_entry(entries, k, it).len() ==> (#[trigger] merge_entry(entries, k, it)[j]).0
                == item_key(merge_entry(entries, k, it)[j].1),
{
    lemma_find_key_props(entries, k);
    let r = merge_entry(entries, k, it);
    let f = find_key(entries, k);
    assert forall|j: int| 0 <= j < r.len() implies (#[trigger] r[j]).0 == item_key(r[j].1) by {
        if f >= 0 {
            if j != f {
                assert(r[j] == entries[j]);
            }
        } else {
            if j < entries.len() {
                assert(r[j] == entries[j]);
            }
        }
    }
}

/// Pushing a host record adds exactly its name to the contents.
proof fn lemma_contents_push(hs: Seq<HostV>, h: HostV)
    ensures
        contents_of(hs.push(h)) =~= contents_of(hs).insert(h.content),
{
    assert forall|c: Seq<char>|
        contents_of(hs.push(h)).contains(c) implies contents_of(hs).insert(h.content).contains(
        c,
    ) by {
        let j = choose|j: int| 0 <= j < hs.push(h).len() && (#[trigger] hs.push(h)[j]).content == c;
        if j < hs.len() {
            assert(hs[j].content == c);
        }
    }
    assert forall|c: Seq<char>|
        contents_of(hs).insert(h.content).contains(c) implies contents_of(hs.push(h)).contains(
        c,
    ) by {
        if c == h.content {
            assert(hs.push(h)[hs.len() as int].content == c);
        } else {
            let j = choose|j: int| 0 <= j < hs.len() && (#[trigger] hs[j]).content == c;
            assert(hs.push(h)[j].content == c);
        }
    }
}

/// Whether a host list already carries this name.
fn hosts_contain(hs: &Vec<Host>, content: &String) -> (r: bool)
    ensures
        r == contents_of(hs.deep_view()).contains(content@),
{
    let mut j: usize = 0;
    while j < hs.len()
        invariant
            j <= hs.len(),
            hs.deep_view().len() == hs@.len(),
            forall|m: int| 0 <= m < j ==> (#[trigger] hs.deep_view()[m]).content != content@,
        decreases hs.len() - j,
    {
        if string_eq(&hs[j].content, content) {
            proof {
                assert(hs.deep_view()[j as int].content == content@);
            }
            return true;
        }
        proof {
            assert(hs.deep_view()[j as int] == hs@[j as int].deep_view());
        }
        j = j + 1;
    }
    false
}

/// Keeps the first occurrence of each host name.
fn dedup_hosts_exec(hs: &Vec<Host>) -> (r: Vec<Host>)
    ensures
        r.deep_view() == dedup_hosts(hs.deep_view()),
{
    let ghost full: Seq<HostV> = hs.deep_view();
    let mut r: Vec<Host> = Vec::new();
    proof {
        assert(full.skip(0) =~= full);
        assert(contents_of(r.deep_view()) =~= Set::<Seq<char>>::empty());
        assert(r.deep_view() + dedup_from(full, contents_of(r.deep_view())) =~~= dedup_from(
            full,
            contents_of(r.deep_view()),
        ));
    }
    let mut m: usize = 0;
    while m < hs.len()
        invariant
            m <= hs.len(),
            full == hs.deep_view(),
            full.len() == hs@.len(),
            dedup_hosts(full) == r.deep_view() + dedup_from(
                full.skip(m as int),
                contents_of(r.deep_view()),
            ),
        decreases hs.len() - m,
    {
        let ghost seen: Set<Seq<char>> = contents_of(r.deep_view());
        proof {
            assert(full.skip(m as int)[0] == full[m as int]);
            assert(full.skip(m as int).drop_first() =~= full.skip(m as int + 1));
            assert(full[m as int] == hs@[m as int].deep_view());
        }
        let dup = hosts_contain(&r, &hs[m].content);
        if !dup {
            let ghost prev: Seq<HostV> = r.deep_view();
            r.push(clone_host(&hs[m]));
            proof {
                assert(r.deep_view() =~~= prev.push(full[m as int]));
                lemma_contents_push(prev, full[m as int]);
                assert(contents_of(r.deep_view()) =~= seen.insert(full[m as int].content));
                assert(prev + (seq![full[m as int]] + dedup_from(
                    full.skip(m as int + 1),
                    seen.insert(full[m as int].content),
                )) =~~= prev.push(full[m as int]) + dedup_from(
                    full.skip(m as int + 1),
                    seen.insert(full[m as int].content),
                ));
            }
        }
        m = m + 1;
    }
    proof {
        assert(full.skip(hs@.len() as int) =~= Seq::<HostV>::empty());
        assert(r.deep_view() + dedup_from(
            full.skip(hs@.len() as int),
            contents_of(r.deep_view()),
        ) =~~= r.deep_view());
    }
    r
}

/// Builds the host records of one entry line, all tagged with its flag.
fn hosts_records(hs: &Vec<String>, enabled: bool) -> (r: Vec<Host>)
    ensures
        r.deep_view() == hosts_of(hs.deep_view(), enabled),
{
    let mut r: Vec<Host> = Vec::new();
    let mut k: usize = 0;
    while k < hs.len()
        invariant
            k <= hs.len(),
            hs.deep_view().len() == hs@.len(),
            r.deep_view() == hosts_of(hs.deep_view().take(k as int), enabled),
        decreases hs.len() - k,
    {
        let ghost prev: Seq<HostV> = r.deep_view();
        r.push(Host { content: hs[k].clone(), enabled });
        k = k + 1;
        proof {
            assert(hs.deep_view()[k - 1] == hs@[k - 1]@);
            assert(r.deep_view() =~~= prev.push(
                HostV { content: hs.deep_view()[k - 1], enabled },
            ));
            assert(prev.push(HostV { content: hs.deep_view()[k - 1], enabled }) =~~= hosts_of(
                hs.deep_view().take(k as int),
                enabled,
            ));
        }
    }
    proof {
        assert(hs.deep_view().take(hs@.len() as int) =~= hs.deep_view());
    }
    r
}

/// Folds the typed lines into the insertion-ordered item list, optionally
/// re-deriving a single group's items from its own sliced lines.
#[verifier::rlimit(100)]
pub fn lines_to_list(lines: &Vec<Line>, group: Option<&str>) -> (r: Vec<Item>)
    ensures
        r.deep_view() == aggregate_sp(lines.deep_view(), scope_view(group)),
{
    let ghost lv: Seq<LineV> = lines.deep_view();
    let ghost scope: Option<Seq<char>> = scope_view(group);
    let sys = system_string();
    let mut cur: String = match group {
        Some(g) => g.to_owned(),
        None => system_string(),
    };
    let scoped: bool = group.is_some();
    let mut out_items: Vec<Item> = Vec::new();
    let mut out_idx: IndexMap<String, usize> = im_new();
    let ghost mut out_entries: Seq<(Seq<char>, ItemV)> = Seq::empty();
    let mut tmp_items: Vec<Item> = Vec::new();
    let mut tmp_idx: IndexMap<String, usize> = im_new();
    let ghost mut tmp_entries: Seq<(Seq<char>, ItemV)> = Seq::empty();
    proof {
        assert(lv.take(0) =~= Seq::<LineV>::empty());
        assert(out_items.deep_view() =~~= entries_values(out_entries));
        assert(tmp_items.deep_view() =~~= entries_values(tmp_entries));
    }
    let mut i: usize = 0;
    while i < lines.len()
        invariant
            i <= lines.len(),
            lv == lines.deep_view(),
            lv.len() == lines@.len(),
            scope == scope_view(group),
            scoped == (scope is Some),
            sys@ == system_name(),
            cur@ == agg_scan(lv.take(i as int), scope).cur,
            tmp_entries == agg_scan(lv.take(i as int), scope).tmp,
            out_entries == agg_scan(lv.take(i as int), scope).out,
            tmp_items.deep_view() == entries_values(tmp_entries),
            out_items.deep_view() == entries_values(out_entries),
            map_indexes(im_map(tmp_idx), tmp_entries),
            map_indexes(im_map(out_idx), out_entries),
            forall|j: int|
                0 <= j < tmp_entries.len() ==> (#[trigger] tmp_entries[j]).0 == item_key(
                    tmp_entries[j].1,
                ),
        decreases lines.len() - i,
    {
        proof {
            assert(lv.take(i as int + 1).drop_last() =~= lv.take(i as int));
            assert(lv.take(i as int + 1).last() == lv[i as int]);
            assert(lv[i as int] == lines@[i as int].deep_view());
        }
        let ghost st: AggState = agg_scan(lv.take(i as int), scope);
        match &lines[i] {
            Line::Valid { ip, hosts, enabled } => {
                if hosts.len() > 0 {
                    let hv = hosts_records(hosts, *enabled);
                    let it = Item { ip: ip.clone(), hosts: hv, group: cur.clone() };
                    let kk = key(cur.as_str(), ip.as_str());
                    proof {
                        assert(it.deep_view() == (ItemV {
                            ip: ip@,
                            hosts: hosts_of(hosts.deep_view(), *enabled),
                            group: st.cur,
                        }));
                        assert(kk@ == item_key(it.deep_view()));
                        lemma_merge_keeps_own_keys(tmp_entries, kk@, it.deep_view());
                    }
                    let res = merge_keyed(&mut tmp_items, &mut tmp_idx, kk, it, Ghost(tmp_entries));
                    proof {
                        tmp_entries = res@;
                    }
                } else {
                }
            },
            Line::Group(name) => {
                let is_sys_name = string_eq(name, &sys);
                let cur_is_sys = string_eq(&cur, &sys);
                let cur_is_name = string_eq(&cur, name);
                if scoped || is_sys_name || (!cur_is_sys && !cur_is_name) {
                } else {
                    let ghost tmp0: Seq<(Seq<char>, ItemV)> = tmp_entries;
                    let ghost out0: Seq<(Seq<char>, ItemV)> = out_entries;
                    proof {
                        assert(tmp0.skip(0) =~= tmp0);
                        assert(entries_values(tmp0).len() == tmp0.len());
                        assert(tmp_items.deep_view().len() == tmp_items@.len());
                    }
                    let mut t: usize = 0;
                    while t < tmp_items.len()
                        invariant
                            t <= tmp_items.len(),
                            tmp0.len() == tmp_items@.len(),
                            tmp_items.deep_view() == entries_values(tmp0),
                            flush(out0, tmp0) == flush(out_entries, tmp0.skip(t as int)),
                            out_items.deep_view() == entries_values(out_entries),
                            map_indexes(im_map(out_idx), out_entries),
                            forall|j: int|
                                0 <= j < tmp0.len() ==> (#[trigger] tmp0[j]).0 == item_key(
                                    tmp0[j].1,
                                ),
                        decreases tmp_items.len() - t,
                    {
                        proof {
                            assert(tmp0.skip(t as int)[0] == tmp0[t as int]);
                            assert(tmp0.skip(t as int).drop_first() =~= tmp0.skip(t as int + 1));
                            assert(tmp_items.deep_view()[t as int] == tmp_items@[t as int].deep_view());
                            assert(entries_values(tmp0)[t as int] == tmp0[t as int].1);
                        }
                        let it = crate::model::clone_item(&tmp_items[t]);
                        let kk = key(it.group.as_str(), it.ip.as_str());
                        proof {
                            assert(it.deep_view() == tmp0[t as int].1);
                            assert(kk@ == item_key(tmp0[t as int].1));
                            assert(kk@ == tmp0[t as int].0);
                        }
                        let res = merge_keyed(&mut out_items, &mut out_idx, kk, it, Ghost(out_entries));
                        proof {
                            out_entries = res@;
                        }
                        t = t + 1;
                    }
                    proof {
                        assert(tmp0.skip(tmp_items@.len() as int) =~= Seq::<(Seq<char>, ItemV)>::empty());
                    }
                    tmp_items.clear();
                    tmp_idx = im_new();
                    proof {
                        tmp_entries = Seq::empty();
                        assert(tmp_items.deep_view() =~~= entries_values(tmp_entries));
                    }
                    if cur_is_name {
                        cur = system_string();
                    } else {
                        cur = name.clone();
                    }
                }
            },
            _ => {},
        }
        i = i + 1;
    }
    proof {
        assert(lv.take(lines@.len() as int) =~= lv);
    }
    // end of input: what is still staged is flushed, reverting to the default
    // group when no scope filter is active
    let ghost stf: AggState = agg_scan(lv, scope);
    let ghost tmp0: Seq<(Seq<char>, ItemV)> = tmp_entries;
    let ghost out0: Seq<(Seq<char>, ItemV)> = out_entries;
    proof {
        assert(tmp0.skip(0) =~= tmp0);
        assert(entries_values(tmp0).len() == tmp0.len());
        assert(tmp_items.deep_view().len() == tmp_items@.len());
    }
    let mut t: usize = 0;
    while t < tmp_items.len()
        invariant
            t <= tmp_items.len(),
            tmp0.len() == tmp_items@.len(),
            scope == scope_view(group),
            scoped == (scope is Some),
            sys@ == system_name(),
            tmp_items.deep_view() == entries_values(tmp0),
            flush_end(out0, tmp0, scope) == flush_end(out_entries, tmp0.skip(t as int), scope),
            out_items.deep_view() == entries_values(out_entries),
            map_indexes(im_map(out_idx), out_entries),
            forall|j: int|
                0 <= j < tmp0.len() ==> (#[trigger] tmp0[j]).0 == item_key(tmp0[j].1),
        decreases tmp_items.len() - t,
    {
        proof {
            assert(tmp0.skip(t as int)[0] == tmp0[t as int]);
            assert(tmp0.skip(t as int).drop_first() =~= tmp0.skip(t as int + 1));
            assert(tmp_items.deep_view()[t as int] == tmp_items@[t as int].deep_view());
            assert(entries_values(tmp0)[t as int] == tmp0[t as int].1);
        }
        let it = if scoped {
            crate::model::clone_item(&tmp_items[t])
        } else {
            let src = &tmp_items[t];
            Item { ip: src.ip.clone(), hosts: clone_hosts(&src.hosts), group: sys.clone() }
        };
        let kk = key(it.group.as_str(), it.ip.as_str());
        proof {
            if scope is None {
                assert(it.deep_view() == (ItemV {
                    ip: tmp0[t as int].1.ip,
                    hosts: tmp0[t as int].1.hosts,
                    group: system_name(),
                }));
                assert(kk@ == key_of(system_name(), tmp0[t as int].1.ip));
            } else {
                assert(it.deep_view() == tmp0[t as int].1);
                assert(kk@ == item_key(tmp0[t as int].1));
                assert(kk@ == tmp0[t as int].0);
            }
        }
        let res = merge_keyed(&mut out_items, &mut out_idx, kk, it, Ghost(out_entries));
        proof {
            out_entries = res@;
        }
        t = t + 1;
    }
    proof {
        assert(tmp0.skip(tmp_items@.len() as int) =~= Seq::<(Seq<char>, ItemV)>::empty());
        assert(out_entries == flush_end(stf.out, stf.tmp, scope));
    }
    // deduplicate each item's hosts, first occurrence winning
    let ghost finals: Seq<ItemV> = entries_values(out_entries);
    let mut result: Vec<Item> = Vec::new();
    let mut d: usize = 0;
    proof {
        assert(result.deep_view() =~~= dedup_items(finals).take(0));
        assert(finals.len() == out_entries.len());
        assert(out_items.deep_view().len() == out_items@.len());
    }
    while d < out_items.len()
        invariant
            d <= out_items.len(),
            finals.len() == out_items@.len(),
            out_items.deep_view() == entries_values(out_entries),
            finals == entries_values(out_entries),
            result.deep_view() == dedup_items(finals).take(d as int),
        decreases out_items.len() - d,
    {
        proof {
            assert(out_items.deep_view()[d as int] == out_items@[d as int].deep_view());
            assert(finals[d as int] == out_items@[d as int].deep_view());
        }
        let src = &out_items[d];
        let dh = dedup_hosts_exec(&src.hosts);
        let ghost prev: Seq<ItemV> = result.deep_view();
        result.push(Item { ip: src.ip.clone(), hosts: dh, group: src.group.clone() });
        d = d + 1;
        proof {
            assert(dedup_items(finals)[d - 1] == (ItemV {
                ip: finals[d - 1].ip,
                hosts: dedup_hosts(finals[d - 1].hosts),
                group: finals[d - 1].group,
            }));
            assert(result.deep_view() =~~= prev.push(dedup_items(finals)[d - 1]));
            assert(prev.push(dedup_items(finals)[d - 1]) =~~= dedup_items(finals).take(d as int));
        }
    }
    proof {
        assert(dedup_items(finals).take(out_items@.len() as int) =~~= dedup_items(finals));
    }
    result
}

} // verus!
