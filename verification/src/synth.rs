//! The line synthesizer: given an edited item list and the original typed
//! lines, regenerates a typed-line sequence. Entry lines of the default scope
//! are patched in place (or blanked out when their IP was removed), named
//! group bodies are regenerated in bulk at their closing delimiter, and
//! whatever never found a place is appended at the end. Host lists are
//! chunked: enabled and disabled hosts are never mixed on one line, and one
//! line carries at most ten names.

use vstd::prelude::*;
use indexmap::IndexMap;
use crate::model::{
    clone_host,
    clone_hosts,
    clone_item,
    system_string,
    system_name,
    Host,
    HostV,
    Item,
    ItemV,
    Line,
    LineV,
};
use crate::ordmap::{im_get, im_insert, im_map, im_new};
use crate::text::string_eq;

verus! {

/// The host names of a host-record list.
pub open spec fn contents_seq(hs: Seq<HostV>) -> Seq<Seq<char>> {
    hs.map_values(|h: HostV| h.content)
}

/// The host records with the given flag, in order.
pub open spec fn part_scan(hs: Seq<HostV>, enabled: bool) -> Seq<HostV>
    decreases hs.len(),
{
    if hs.len() == 0 {
        Seq::<HostV>::empty()
    } else {
        part_scan(hs.drop_last(), enabled) + if hs.last().enabled == enabled {
            seq![hs.last()]
        } else {
            Seq::<HostV>::empty()
        }
    }
}

/// Chunks one flag's host records into entry lines of at most ten names each,
/// in order.
pub open spec fn chunk_lines(ip: Seq<char>, hs: Seq<HostV>, enabled: bool) -> Seq<LineV>
    decreases hs.len(),
{
    if hs.len() == 0 {
        Seq::<LineV>::empty()
    } else if hs.len() <= 10 {
        seq![LineV::Valid { ip, hosts: contents_seq(hs), enabled }]
    } else {
        seq![LineV::Valid { ip, hosts: contents_seq(hs.take(10)), enabled }] + chunk_lines(
            ip,
            hs.skip(10),
            enabled,
        )
    }
}

/// The synthesized lines of one IP's host list: enabled chunks, then disabled
/// chunks.
pub open spec fn hosts_chunk_sp(hosts: Seq<HostV>, ip: Seq<char>) -> Seq<LineV> {
    chunk_lines(ip, part_scan(hosts, true), true) + chunk_lines(ip, part_scan(hosts, false), false)
}

/// The position of the first pair with the given key, or -1.
pub open spec fn find_pair<T>(entries: Seq<(Seq<char>, T)>, k: Seq<char>) -> int
    decreases entries.len(),
{
    if entries.len() == 0 {
        -1
    } else if entries[0].0 == k {
        0
    } else {
        let r = find_pair(entries.drop_first(), k);
        if r < 0 {
            -1
        } else {
            r + 1
        }
    }
}

/// Stages one item's hosts under its IP for the default scope.
pub open spec fn sys_stage(
    sys: Seq<(Seq<char>, Seq<HostV>)>,
    ip: Seq<char>,
    hs: Seq<HostV>,
) -> Seq<(Seq<char>, Seq<HostV>)> {
    let j = find_pair(sys, ip);
    if j >= 0 {
        sys.update(j, (sys[j].0, sys[j].1 + hs))
    } else {
        sys.push((ip, hs))
    }
}

/// Stages one item under its named group.
pub open spec fn grp_stage(grp: Seq<(Seq<char>, Seq<ItemV>)>, g: Seq<char>, it: ItemV) -> Seq<
    (Seq<char>, Seq<ItemV>),
> {
    let j = find_pair(grp, g);
    if j >= 0 {
        grp.update(j, (grp[j].0, grp[j].1.push(it)))
    } else {
        grp.push((g, seq![it]))
    }
}

/// Partitions the edited items into per-IP default-scope host lists and
/// per-name group item lists, each in first-occurrence order.
pub open spec fn partition_items(list: Seq<ItemV>) -> (
    Seq<(Seq<char>, Seq<HostV>)>,
    Seq<(Seq<char>, Seq<ItemV>)>,
)
    decreases list.len(),
{
    if list.len() == 0 {
        (Seq::<(Seq<char>, Seq<HostV>)>::empty(), Seq::<(Seq<char>, Seq<ItemV>)>::empty())
    } else {
        let p = partition_items(list.drop_last());
        let it = list.last();
        if it.group == system_name() {
            (sys_stage(p.0, it.ip, it.hosts), p.1)
        } else {
            (p.0, grp_stage(p.1, it.group, it))
        }
    }
}

/// The chunked lines of a group's items, item by item.
pub open spec fn chunks_of_items(items: Seq<ItemV>) -> Seq<LineV>
    decreases items.len(),
{
    if items.len() == 0 {
        Seq::<LineV>::empty()
    } else {
        hosts_chunk_sp(items[0].hosts, items[0].ip) + chunks_of_items(items.drop_first())
    }
}

/// The synthesizer's walk state: the open group, the still-pending default
/// hosts and group items (consumed entries emptied), and the output so far.
pub ghost struct SynthState {
    pub cur: Option<Seq<char>>,
    pub sys: Seq<(Seq<char>, Seq<HostV>)>,
    pub grp: Seq<(Seq<char>, Seq<ItemV>)>,
    pub out: Seq<LineV>,
}

/// One walk step over an original line: an entry line inside a named group is
/// dropped (its group's body is regenerated in bulk); an entry line at the
/// default scope is replaced by its IP's freshly chunked pending hosts, or by
/// a blank line when none are pending; a delimiter of the reserved name is
/// dropped; a closing delimiter re-emits the pair around the group's
/// regenerated body (or nothing when the group has nothing pending); an
/// opening delimiter only opens the scope; a delimiter inside a different
/// group is dropped; blank and opaque lines pass through verbatim.
pub open spec fn synth_step(st: SynthState, l: LineV) -> SynthState {
    match l {
        LineV::Valid { ip, hosts, enabled } => {
            if st.cur is Some {
                st
            } else {
                let j = find_pair(st.sys, ip);
                if j >= 0 {
                    if st.sys[j].1.len() == 0 {
                        SynthState { out: st.out.push(LineV::Empty), ..st }
                    } else {
                        SynthState {
                            sys: st.sys.update(j, (st.sys[j].0, Seq::<HostV>::empty())),
                            out: st.out + hosts_chunk_sp(st.sys[j].1, ip),
                            ..st
                        }
                    }
                } else {
                    SynthState { out: st.out.push(LineV::Empty), ..st }
                }
            }
        },
        LineV::Group(g) => {
            if g == system_name() {
                st
            } else {
                match st.cur {
                    Some(pre) => {
                        if pre == g {
                            let j = find_pair(st.grp, g);
                            if j >= 0 && st.grp[j].1.len() > 0 {
                                SynthState {
                                    cur: None,
                                    grp: st.grp.update(j, (st.grp[j].0, Seq::<ItemV>::empty())),
                                    out: st.out + seq![LineV::Group(g)] + chunks_of_items(
                                        st.grp[j].1,
                                    ) + seq![LineV::Group(g)],
                                    ..st
                                }
                            } else {
                                SynthState { cur: None, ..st }
                            }
                        } else {
                            st
                        }
                    },
                    None => SynthState { cur: Some(g), ..st },
                }
            }
        },
        _ => SynthState { out: st.out.push(l), ..st },
    }
}

pub open spec fn synth_scan(old: Seq<LineV>, init: SynthState) -> SynthState
    decreases old.len(),
{
    if old.len() == 0 {
        init
    } else {
        synth_step(synth_scan(old.drop_last(), init), old.last())
    }
}

/// Appends freshly chunked lines for every IP whose pending hosts never found
/// an original line, in staging order.
pub open spec fn append_sys(out: Seq<LineV>, sys: Seq<(Seq<char>, Seq<HostV>)>) -> Seq<LineV>
    decreases sys.len(),
{
    if sys.len() == 0 {
        out
    } else {
        append_sys(
            out + if sys[0].1.len() > 0 {
                hosts_chunk_sp(sys[0].1, sys[0].0)
            } else {
                Seq::<LineV>::empty()
            },
            sys.drop_first(),
        )
    }
}

/// Appends a fresh delimited block for every named group that never closed in
/// the original text, in staging order.
pub open spec fn append_grps(out: Seq<LineV>, grp: Seq<(Seq<char>, Seq<ItemV>)>) -> Seq<LineV>
    decreases grp.len(),
{
    if grp.len() == 0 {
        out
    } else {
        append_grps(
            out + if grp[0].1.len() > 0 {
                seq![LineV::Empty, LineV::Group(grp[0].0)] + chunks_of_items(grp[0].1) + seq![
                    LineV::Group(grp[0].0),
                ]
            } else {
                Seq::<LineV>::empty()
            },
            grp.drop_first(),
        )
    }
}

/// The whole synthesis: partition the edited items, walk the original lines,
/// then append what is still pending.
pub open spec fn synthesize_sp(list: Seq<ItemV>, old: Seq<LineV>) -> Seq<LineV> {
    let p = partition_items(list);
    let st = synth_scan(
        old,
        SynthState { cur: None, sys: p.0, grp: p.1, out: Seq::<LineV>::empty() },
    );
    append_grps(append_sys(st.out, st.sys), st.grp)
}

/// Appends the chunk lines of one flag's records.
fn chunk_push(lines: &mut Vec<Line>, ip: &str, hs: &Vec<Host>, enabled: bool)
    ensures
        final(lines).deep_view() == old(lines).deep_view() + chunk_lines(
            ip@,
            hs.deep_view(),
            enabled,
        ),
{
    let ghost hsv: Seq<HostV> = hs.deep_view();
    proof {
        assert(hsv.skip(0) =~= hsv);
        assert(old(lines).deep_view() + chunk_lines(ip@, hsv.skip(0), enabled) =~~= old(
            lines,
        ).deep_view() + chunk_lines(ip@, hsv, enabled));
        assert(hsv.len() == hs@.len());
    }
    let mut p: usize = 0;
    while p < hs.len()
        invariant
            p <= hs.len(),
            hsv == hs.deep_view(),
            hsv.len() == hs@.len(),
            old(lines).deep_view() + chunk_lines(ip@, hsv, enabled) == lines.deep_view()
                + chunk_lines(ip@, hsv.skip(p as int), enabled),
        decreases hs.len() - p,
    {
        let e: usize = if hs.len() - p > 10 {
            p + 10
        } else {
            hs.len()
        };
        let mut contents: Vec<String> = Vec::new();
        let mut m: usize = p;
        while m < e
            invariant
                p <= m <= e <= hs.len(),
                hsv == hs.deep_view(),
                hsv.len() == hs@.len(),
                contents.deep_view() == contents_seq(hsv.subrange(p as int, m as int)),
            decreases e - m,
        {
            let ghost prev: Seq<Seq<char>> = contents.deep_view();
            contents.push(hs[m].content.clone());
            m = m + 1;
            proof {
                assert(hsv[m - 1] == hs@[m - 1].deep_view());
                assert(contents.deep_view() =~~= prev.push(hsv[m - 1].content));
                assert(prev.push(hsv[m - 1].content) =~~= contents_seq(
                    hsv.subrange(p as int, m as int),
                ));
            }
        }
        let ghost prev_lines: Seq<LineV> = lines.deep_view();
        let row = Line::Valid { ip: ip.to_owned(), hosts: contents, enabled };
        let ghost rowv: LineV = row.deep_view();
        lines.push(row);
        proof {
            let rem = hsv.skip(p as int);
            if rem.len() <= 10 {
                assert(hsv.subrange(p as int, e as int) =~= rem);
                assert(rowv == (LineV::Valid { ip: ip@, hosts: contents_seq(rem), enabled }));
                assert(chunk_lines(ip@, rem, enabled) =~= seq![rowv]);
                assert(hsv.skip(e as int) =~= Seq::<HostV>::empty());
                assert(lines.deep_view() =~~= prev_lines.push(rowv));
                assert(prev_lines + (seq![rowv] + chunk_lines(ip@, hsv.skip(e as int), enabled))
                    =~~= lines.deep_view() + chunk_lines(ip@, hsv.skip(e as int), enabled));
            } else {
                assert(hsv.subrange(p as int, e as int) =~= rem.take(10));
                assert(rowv == (LineV::Valid {
                    ip: ip@,
                    hosts: contents_seq(rem.take(10)),
                    enabled,
                }));
                assert(rem.skip(10) =~= hsv.skip(e as int));
                assert(chunk_lines(ip@, rem, enabled) == seq![rowv] + chunk_lines(
                    ip@,
                    hsv.skip(e as int),
                    enabled,
                ));
                assert(lines.deep_view() =~~= prev_lines.push(rowv));
                assert(prev_lines + (seq![rowv] + chunk_lines(ip@, hsv.skip(e as int), enabled))
                    =~~= lines.deep_view() + chunk_lines(ip@, hsv.skip(e as int), enabled));
            }
        }
        p = e;
    }
    proof {
        assert(hsv.skip(hs@.len() as int) =~= Seq::<HostV>::empty());
        assert(lines.deep_view() + chunk_lines(
            ip@,
            hsv.skip(hs@.len() as int),
            enabled,
        ) =~~= lines.deep_view());
    }
}

/// Splits a host list into freshly chunked entry lines for one IP: enabled
/// hosts first, then disabled hosts, at most ten names per line, never mixing
/// the two flags on one line.
pub fn hosts_chunk(hosts: Vec<Host>, ip: &str) -> (r: Vec<Line>)
    ensures
        r.deep_view() == hosts_chunk_sp(hosts.deep_view(), ip@),
{
    let ghost hv: Seq<HostV> = hosts.deep_view();
    let mut en: Vec<Host> = Vec::new();
    let mut dis: Vec<Host> = Vec::new();
    let mut k: usize = 0;
    while k < hosts.len()
        invariant
            k <= hosts.len(),
            hv == hosts.deep_view(),
            hv.len() == hosts@.len(),
            en.deep_view() == part_scan(hv.take(k as int), true),
            dis.deep_view() == part_scan(hv.take(k as int), false),
        decreases hosts.len() - k,
    {
        proof {
            assert(hv.take(k as int + 1).drop_last() =~= hv.take(k as int));
            assert(hv.take(k as int + 1).last() == hv[k as int]);
            assert(hv[k as int] == hosts@[k as int].deep_view());
        }
        let ghost pe: Seq<HostV> = en.deep_view();
        let ghost pd: Seq<HostV> = dis.deep_view();
        if hosts[k].enabled {
            en.push(clone_host(&hosts[k]));
            proof {
                assert(en.deep_view() =~~= pe.push(hv[k as int]));
                assert(pe.push(hv[k as int]) =~~= pe + seq![hv[k as int]]);
                assert(pd + Seq::<HostV>::empty() =~~= pd);
            }
        } else {
            dis.push(clone_host(&hosts[k]));
            proof {
                assert(dis.deep_view() =~~= pd.push(hv[k as int]));
                assert(pd.push(hv[k as int]) =~~= pd + seq![hv[k as int]]);
                assert(pe + Seq::<HostV>::empty() =~~= pe);
            }
        }
        k = k + 1;
    }
    proof {
        assert(hv.take(hosts@.len() as int) =~= hv);
    }
    let mut lines: Vec<Line> = Vec::new();
    proof {
        assert(lines.deep_view() =~~= Seq::<LineV>::empty());
    }
    chunk_push(&mut lines, ip, &en, true);
    chunk_push(&mut lines, ip, &dis, false);
    proof {
        assert(Seq::<LineV>::empty() + chunk_lines(ip@, part_scan(hv, true), true) =~~= chunk_lines(
            ip@,
            part_scan(hv, true),
            true,
        ));
    }
    lines
}

/// The index map holds exactly the pair keys, each mapped to its position.
pub open spec fn map_pairs<T>(m: Map<Seq<char>, usize>, entries: Seq<(Seq<char>, T)>) -> bool {
    &&& (forall|k: Seq<char>| #[trigger]
        m.contains_key(k) ==> 0 <= m[k] < entries.len() && entries[m[k] as int].0 == k)
    &&& (forall|j: int| 0 <= j < entries.len() ==> m.contains_key(#[trigger] entries[j].0))
    &&& (forall|a: int, b: int| 0 <= a < b < entries.len() ==> entries[a].0 != entries[b].0)
}

pub(crate) proof fn lemma_find_pair_at<T>(entries: Seq<(Seq<char>, T)>, k: Seq<char>, j: int)
    requires
        0 <= j < entries.len(),
        entries[j].0 == k,
        forall|a: int, b: int| 0 <= a < b < entries.len() ==> entries[a].0 != entries[b].0,
    ensures
        find_pair(entries, k) == j,
    decreases entries.len(),
{
    if j > 0 {
        assert(entries[0].0 != k);
        lemma_find_pair_at(entries.drop_first(), k, j - 1);
    }
}

pub(crate) proof fn lemma_find_pair_none<T>(entries: Seq<(Seq<char>, T)>, k: Seq<char>)
    requires
        forall|j: int| 0 <= j < entries.len() ==> (#[trigger] entries[j]).0 != k,
    ensures
        find_pair(entries, k) == -1,
    decreases entries.len(),
{
    if entries.len() > 0 {
        lemma_find_pair_none(entries.drop_first(), k);
    }
}

/// The parallel key and value vectors mirror the ghost pair list.
pub open spec fn pairs_rel<T, K: DeepView<V = Seq<char>>, W: DeepView<V = T>>(
    ks: Seq<K>,
    vs: Seq<W>,
    entries: Seq<(Seq<char>, T)>,
) -> bool {
    &&& ks.len() == entries.len()
    &&& vs.len() == entries.len()
    &&& (forall|j: int|
        0 <= j < entries.len() ==> ks[j].deep_view() == (#[trigger] entries[j]).0
            && vs[j].deep_view() == entries[j].1)
}

/// The view of the open-group register.
pub open spec fn opt_name_view(o: Option<String>) -> Option<Seq<char>> {
    match o {
        Some(s) => Some(s@),
        None => None,
    }
}

/// Regenerates a typed-line sequence from the edited items and the original
/// lines: default-scope entry lines are patched in place or blanked out,
/// named-group bodies are regenerated at their closing delimiter, and pending
/// content that found no original place is appended at the end.
#[verifier::rlimit(100)]
pub fn list_to_lines(list: Vec<Item>, old_lines: Vec<Line>) -> (r: Vec<Line>)
    ensures
        r.deep_view() == synthesize_sp(list.deep_view(), old_lines.deep_view()),
{
    let ghost listv: Seq<ItemV> = list.deep_view();
    let ghost oldv: Seq<LineV> = old_lines.deep_view();
    let sys = system_string();
    let mut sys_ips: Vec<String> = Vec::new();
    let mut sys_hosts: Vec<Vec<Host>> = Vec::new();
    let mut sys_idx: IndexMap<String, usize> = im_new();
    let mut grp_names: Vec<String> = Vec::new();
    let mut grp_items: Vec<Vec<Item>> = Vec::new();
    let mut grp_idx: IndexMap<String, usize> = im_new();
    proof {
        assert(listv.take(0) =~= Seq::<ItemV>::empty());
    }
    let mut i: usize = 0;
    while i < list.len()
        invariant
            i <= list.len(),
            listv == list.deep_view(),
            listv.len() == list@.len(),
            sys@ == system_name(),
            pairs_rel(sys_ips@, sys_hosts@, partition_items(listv.take(i as int)).0),
            pairs_rel(grp_names@, grp_items@, partition_items(listv.take(i as int)).1),
            map_pairs(im_map(sys_idx), partition_items(listv.take(i as int)).0),
            map_pairs(im_map(grp_idx), partition_items(listv.take(i as int)).1),
        decreases list.len() - i,
    {
        proof {
            assert(listv.take(i as int + 1).drop_last() =~= listv.take(i as int));
            assert(listv.take(i as int + 1).last() == listv[i as int]);
            assert(listv[i as int] == list@[i as int].deep_view());
        }
        let ghost psys: Seq<(Seq<char>, Seq<HostV>)> = partition_items(listv.take(i as int)).0;
        let ghost pgrp: Seq<(Seq<char>, Seq<ItemV>)> = partition_items(listv.take(i as int)).1;
        let it = &list[i];
        if string_eq(&it.group, &sys) {
            match im_get(&sys_idx, &it.ip) {
                Some(j) => {
                    proof {
                        lemma_find_pair_at(psys, it.ip@, j as int);
                    }
                    let ghost prevh: Seq<Vec<Host>> = sys_hosts@;
                    let mut hv = sys_hosts.remove(j);
                    let ghost hv0: Seq<HostV> = hv.deep_view();
                    let mut add = clone_hosts(&it.hosts);
                    hv.append(&mut add);
                    proof {
                        assert(hv0 == psys[j as int].1);
                        assert(hv.deep_view() =~~= hv0 + listv[i as int].hosts);
                    }
                    let ghost hvv: Seq<HostV> = hv.deep_view();
                    sys_hosts.insert(j, hv);
                    proof {
                        assert(sys_hosts@ =~= prevh.remove(j as int).insert(j as int, sys_hosts@[j as int]));
                        assert(forall|j2: int|
                            0 <= j2 < prevh.len() && j2 != j ==> sys_hosts@[j2] == #[trigger] prevh[j2]);
                        assert(sys_hosts@[j as int].deep_view() == hvv);
                    }
                },
                None => {
                    proof {
                        lemma_find_pair_none(psys, it.ip@);
                    }
                    let ghost prevm: Map<Seq<char>, usize> = im_map(sys_idx);
                    let n = sys_ips.len();
                    im_insert(&mut sys_idx, it.ip.clone(), n);
                    sys_ips.push(it.ip.clone());
                    sys_hosts.push(clone_hosts(&it.hosts));
                    proof {
                        assert(im_map(sys_idx) == prevm.insert(it.ip@, n));
                    }
                },
            }
        } else {
            match im_get(&grp_idx, &it.group) {
                Some(j) => {
                    proof {
                        lemma_find_pair_at(pgrp, it.group@, j as int);
                    }
                    let ghost prevv: Seq<Vec<Item>> = grp_items@;
                    let mut iv = grp_items.remove(j);
                    let ghost iv0: Seq<ItemV> = iv.deep_view();
                    iv.push(clone_item(it));
                    proof {
                        assert(iv0 == pgrp[j as int].1);
                        assert(iv.deep_view() =~~= iv0.push(listv[i as int]));
                    }
                    let ghost ivv: Seq<ItemV> = iv.deep_view();
                    grp_items.insert(j, iv);
                    proof {
                        assert(forall|j2: int|
                            0 <= j2 < prevv.len() && j2 != j ==> grp_items@[j2] == #[trigger] prevv[j2]);
                        assert(grp_items@[j as int].deep_view() == ivv);
                    }
                },
                None => {
                    proof {
                        lemma_find_pair_none(pgrp, it.group@);
                    }
                    let ghost prevm: Map<Seq<char>, usize> = im_map(grp_idx);
                    let n = grp_names.len();
                    im_insert(&mut grp_idx, it.group.clone(), n);
                    grp_names.push(it.group.clone());
                    let single: Vec<Item> = vec![clone_item(it)];
                    proof {
                        assert(single.deep_view() =~~= seq![listv[i as int]]);
                    }
                    grp_items.push(single);
                    proof {
                        assert(im_map(grp_idx) == prevm.insert(it.group@, n));
                    }
                },
            }
        }
        i = i + 1;
        proof {
            let pnew = partition_items(listv.take(i as int));
            assert(pairs_rel(sys_ips@, sys_hosts@, pnew.0));
            assert(pairs_rel(grp_names@, grp_items@, pnew.1));
        }
    }
    proof {
        assert(listv.take(list@.len() as int) =~= listv);
    }
    let ghost p0: (Seq<(Seq<char>, Seq<HostV>)>, Seq<(Seq<char>, Seq<ItemV>)>) = partition_items(
        listv,
    );
    let ghost init: SynthState = SynthState {
        cur: None,
        sys: p0.0,
        grp: p0.1,
        out: Seq::<LineV>::empty(),
    };
    let mut out: Vec<Line> = Vec::new();
    let mut cur: Option<String> = None;
    proof {
        assert(oldv.take(0) =~= Seq::<LineV>::empty());
        assert(out.deep_view() =~~= Seq::<LineV>::empty());
    }
    let mut w: usize = 0;
    while w < old_lines.len()
        invariant
            w <= old_lines.len(),
            oldv == old_lines.deep_view(),
            oldv.len() == old_lines@.len(),
            sys@ == system_name(),
            opt_name_view(cur) == synth_scan(oldv.take(w as int), init).cur,
            pairs_rel(sys_ips@, sys_hosts@, synth_scan(oldv.take(w as int), init).sys),
            pairs_rel(grp_names@, grp_items@, synth_scan(oldv.take(w as int), init).grp),
            map_pairs(im_map(sys_idx), synth_scan(oldv.take(w as int), init).sys),
            map_pairs(im_map(grp_idx), synth_scan(oldv.take(w as int), init).grp),
            out.deep_view() == synth_scan(oldv.take(w as int), init).out,
        decreases old_lines.len() - w,
    {
        proof {
            assert(oldv.take(w as int + 1).drop_last() =~= oldv.take(w as int));
            assert(oldv.take(w as int + 1).last() == oldv[w as int]);
            assert(oldv[w as int] == old_lines@[w as int].deep_view());
        }
        let ghost wst: SynthState = synth_scan(oldv.take(w as int), init);
        match &old_lines[w] {
            Line::Valid { ip, .. } => {
                if cur.is_some() {
                } else {
                    match im_get(&sys_idx, ip) {
                        Some(j) => {
                            proof {
                                lemma_find_pair_at(wst.sys, ip@, j as int);
                            }
                            let ghost prevh: Seq<Vec<Host>> = sys_hosts@;
                            let hv = sys_hosts.remove(j);
                            sys_hosts.insert(j, Vec::new());
                            proof {
                                assert(hv == prevh[j as int]);
                                assert(hv.deep_view() == wst.sys[j as int].1);
                                assert(forall|j2: int|
                                    0 <= j2 < prevh.len() && j2 != j ==> sys_hosts@[j2]
                                        == #[trigger] prevh[j2]);
                                assert(sys_hosts@[j as int].deep_view() =~~= Seq::<HostV>::empty());
                            }
                            if hv.len() == 0 {
                                out.push(Line::Empty);
                                proof {
                                    assert(hv.deep_view().len() == 0);
                                    assert(wst.sys.update(
                                        j as int,
                                        (wst.sys[j as int].0, Seq::<HostV>::empty()),
                                    ) =~~= wst.sys);
                                    assert(out.deep_view() =~~= wst.out.push(LineV::Empty));
                                }
                            } else {
                                let mut chunked = hosts_chunk(hv, ip.as_str());
                                let ghost cv: Seq<LineV> = chunked.deep_view();
                                out.append(&mut chunked);
                                proof {
                                    assert(out.deep_view() =~~= wst.out + cv);
                                }
                            }
                        },
                        None => {
                            proof {
                                lemma_find_pair_none(wst.sys, ip@);
                            }
                            out.push(Line::Empty);
                            proof {
                                assert(out.deep_view() =~~= wst.out.push(LineV::Empty));
                            }
                        },
                    }
                }
            },
            Line::Group(g) => {
                if string_eq(g, &sys) {
                } else {
                    let mut close: bool = false;
                    match &cur {
                        Some(pre) => {
                            if string_eq(pre, g) {
                                close = true;
                            }
                        },
                        None => {
                            cur = Some(g.clone());
                        },
                    }
                    if close {
                        cur = None;
                        match im_get(&grp_idx, g) {
                            Some(j) => {
                                proof {
                                    lemma_find_pair_at(wst.grp, g@, j as int);
                                }
                                let ghost prevg: Seq<Vec<Item>> = grp_items@;
                                let items = grp_items.remove(j);
                                grp_items.insert(j, Vec::new());
                                proof {
                                    assert(items == prevg[j as int]);
                                    assert(items.deep_view() == wst.grp[j as int].1);
                                    assert(forall|j2: int|
                                        0 <= j2 < prevg.len() && j2 != j ==> grp_items@[j2]
                                            == #[trigger] prevg[j2]);
                                    assert(grp_items@[j as int].deep_view() =~~= Seq::<
                                        ItemV,
                                    >::empty());
                                }
                                if items.len() > 0 {
                                    let ghost itemsv: Seq<ItemV> = items.deep_view();
                                    let ghost base: Seq<LineV> = out.deep_view();
                                    out.push(Line::Group(g.clone()));
                                    proof {
                                        assert(itemsv.skip(0) =~= itemsv);
                                        assert(out.deep_view() =~~= base + seq![
                                            LineV::Group(g@),
                                        ]);
                                        assert(base + seq![LineV::Group(g@)] + chunks_of_items(
                                            itemsv.skip(0),
                                        ) =~~= base + seq![LineV::Group(g@)] + chunks_of_items(
                                            itemsv,
                                        ));
                                        assert(itemsv.len() == items@.len());
                                    }
                                    let mut t: usize = 0;
                                    while t < items.len()
                                        invariant
                                            t <= items.len(),
                                            itemsv == items.deep_view(),
                                            itemsv.len() == items@.len(),
                                            base + seq![LineV::Group(g@)] + chunks_of_items(itemsv)
                                                == out.deep_view() + chunks_of_items(
                                                itemsv.skip(t as int),
                                            ),
                                        decreases items.len() - t,
                                    {
                                        proof {
                                            assert(itemsv.skip(t as int)[0] == itemsv[t as int]);
                                            assert(itemsv.skip(t as int).drop_first()
                                                =~= itemsv.skip(t as int + 1));
                                            assert(itemsv[t as int] == items@[t as int].deep_view());
                                        }
                                        let hv2 = clone_hosts(&items[t].hosts);
                                        let mut chunked = hosts_chunk(hv2, items[t].ip.as_str());
                                        let ghost cv: Seq<LineV> = chunked.deep_view();
                                        let ghost prevo: Seq<LineV> = out.deep_view();
                                        out.append(&mut chunked);
                                        t = t + 1;
                                        proof {
                                            assert(out.deep_view() =~~= prevo + cv);
                                            assert(prevo + (cv + chunks_of_items(
                                                itemsv.skip(t as int),
                                            )) =~~= (prevo + cv) + chunks_of_items(
                                                itemsv.skip(t as int),
                                            ));
                                        }
                                    }
                                    proof {
                                        assert(itemsv.skip(items@.len() as int) =~= Seq::<
                                            ItemV,
                                        >::empty());
                                    }
                                    let ghost preclose: Seq<LineV> = out.deep_view();
                                    out.push(Line::Group(g.clone()));
                                    proof {
                                        assert(out.deep_view() =~~= preclose.push(
                                            LineV::Group(g@),
                                        ));
                                        assert(preclose + chunks_of_items(
                                            itemsv.skip(items@.len() as int),
                                        ) =~~= preclose);
                                        assert(out.deep_view() =~~= wst.out + seq![
                                            LineV::Group(g@),
                                        ] + chunks_of_items(itemsv) + seq![LineV::Group(g@)]);
                                    }
                                } else {
                                    proof {
                                        assert(wst.grp.update(
                                            j as int,
                                            (wst.grp[j as int].0, Seq::<ItemV>::empty()),
                                        ) =~~= wst.grp);
                                    }
                                }
                            },
                            None => {
                                proof {
                                    lemma_find_pair_none(wst.grp, g@);
                                }
                            },
                        }
                    }
                }
            },
            Line::Empty => {
                out.push(Line::Empty);
                proof {
                    assert(out.deep_view() =~~= wst.out.push(LineV::Empty));
                }
            },
            Line::Other(s) => {
                out.push(Line::Other(s.clone()));
                proof {
                    assert(out.deep_view() =~~= wst.out.push(LineV::Other(s@)));
                }
            },
        }
        w = w + 1;
    }
    proof {
        assert(oldv.take(old_lines@.len() as int) =~= oldv);
    }
    let ghost fst: SynthState = synth_scan(oldv, init);
    // pending default-scope IPs that never had a line are appended at the end
    let ghost sys0: Seq<(Seq<char>, Seq<HostV>)> = fst.sys;
    proof {
        assert(sys0.skip(0) =~= sys0);
    }
    let mut t: usize = 0;
    while t < sys_ips.len()
        invariant
            t <= sys_ips.len(),
            sys0.len() == sys_ips@.len(),
            sys_hosts@.len() == sys_ips@.len(),
            pairs_rel(sys_ips@, sys_hosts@, sys0),
            append_sys(fst.out, sys0) == append_sys(out.deep_view(), sys0.skip(t as int)),
        decreases sys_ips.len() - t,
    {
        proof {
            assert(sys0.skip(t as int)[0] == sys0[t as int]);
            assert(sys0.skip(t as int).drop_first() =~= sys0.skip(t as int + 1));
        }
        let hv = clone_hosts(&sys_hosts[t]);
        if hv.len() > 0 {
            let ghost prevo: Seq<LineV> = out.deep_view();
            let mut chunked = hosts_chunk(hv, sys_ips[t].as_str());
            let ghost cv: Seq<LineV> = chunked.deep_view();
            out.append(&mut chunked);
            proof {
                assert(out.deep_view() =~~= prevo + cv);
            }
        } else {
            proof {
                assert(out.deep_view() + Seq::<LineV>::empty() =~~= out.deep_view());
            }
        }
        t = t + 1;
    }
    proof {
        assert(sys0.skip(sys_ips@.len() as int) =~= Seq::<(Seq<char>, Seq<HostV>)>::empty());
    }
    // named groups that never closed in the original text become new blocks
    let ghost grp0: Seq<(Seq<char>, Seq<ItemV>)> = fst.grp;
    let ghost sysdone: Seq<LineV> = append_sys(fst.out, sys0);
    proof {
        assert(grp0.skip(0) =~= grp0);
    }
    let mut u: usize = 0;
    while u < grp_names.len()
        invariant
            u <= grp_names.len(),
            grp0.len() == grp_names@.len(),
            grp_items@.len() == grp_names@.len(),
            pairs_rel(grp_names@, grp_items@, grp0),
            append_grps(sysdone, grp0) == append_grps(out.deep_view(), grp0.skip(u as int)),
        decreases grp_names.len() - u,
    {
        proof {
            assert(grp0.skip(u as int)[0] == grp0[u as int]);
            assert(grp0.skip(u as int).drop_first() =~= grp0.skip(u as int + 1));
        }
        let ghost gname: Seq<char> = grp0[u as int].0;
        let items = &grp_items[u];
        if items.len() > 0 {
            let ghost itemsv: Seq<ItemV> = grp0[u as int].1;
            let ghost base: Seq<LineV> = out.deep_view();
            out.push(Line::Empty);
            out.push(Line::Group(grp_names[u].clone()));
            proof {
                assert(itemsv.skip(0) =~= itemsv);
                assert(items.deep_view() == itemsv);
                assert(itemsv.len() == items@.len());
                assert(out.deep_view() =~~= base + seq![LineV::Empty, LineV::Group(gname)]);
                assert(base + seq![LineV::Empty, LineV::Group(gname)] + chunks_of_items(
                    itemsv.skip(0),
                ) =~~= base + seq![LineV::Empty, LineV::Group(gname)] + chunks_of_items(itemsv));
            }
            let mut t2: usize = 0;
            while t2 < items.len()
                invariant
                    t2 <= items.len(),
                    itemsv == items.deep_view(),
                    itemsv.len() == items@.len(),
                    base + seq![LineV::Empty, LineV::Group(gname)] + chunks_of_items(itemsv)
                        == out.deep_view() + chunks_of_items(itemsv.skip(t2 as int)),
                decreases items.len() - t2,
            {
                proof {
                    assert(itemsv.skip(t2 as int)[0] == itemsv[t2 as int]);
                    assert(itemsv.skip(t2 as int).drop_first() =~= itemsv.skip(t2 as int + 1));
                    assert(itemsv[t2 as int] == items@[t2 as int].deep_view());
                }
                let hv2 = clone_hosts(&items[t2].hosts);
                let mut chunked = hosts_chunk(hv2, items[t2].ip.as_str());
                let ghost cv: Seq<LineV> = chunked.deep_view();
                let ghost prevo: Seq<LineV> = out.deep_view();
                out.append(&mut chunked);
                t2 = t2 + 1;
                proof {
                    assert(out.deep_view() =~~= prevo + cv);
                    assert(prevo + (cv + chunks_of_items(itemsv.skip(t2 as int))) =~~= (prevo + cv)
                        + chunks_of_items(itemsv.skip(t2 as int)));
                }
            }
            proof {
                assert(itemsv.skip(items@.len() as int) =~= Seq::<ItemV>::empty());
            }
            let ghost preclose: Seq<LineV> = out.deep_view();
            out.push(Line::Group(grp_names[u].clone()));
            proof {
                assert(out.deep_view() =~~= preclose.push(LineV::Group(gname)));
                assert(preclose + chunks_of_items(itemsv.skip(items@.len() as int)) =~~= preclose);
                assert(out.deep_view() =~~= base + (seq![LineV::Empty, LineV::Group(gname)]
                    + chunks_of_items(itemsv) + seq![LineV::Group(gname)]));
            }
        } else {
            proof {
                assert(grp0[u as int].1.len() == 0);
                assert(out.deep_view() + Seq::<LineV>::empty() =~~= out.deep_view());
            }
        }
        u = u + 1;
    }
    proof {
        assert(grp0.skip(grp_names@.len() as int) =~= Seq::<(Seq<char>, Seq<ItemV>)>::empty());
    }
    out
}

/// Regenerates the hosts text from an edited item list and the original text,
/// reusing the original line structure.
pub fn list_to_text(list: Vec<Item>, old_text: String) -> (r: String)
    ensures
        r@ == crate::render::render_sp(
            synthesize_sp(list.deep_view(), crate::parse::parse_sp(old_text@)),
            false,
        ),
{
    let lines = crate::parse::text_to_lines(old_text.as_str());
    let new_lines = list_to_lines(list, lines);
    crate::render::lines_to_text(&new_lines, false)
}

} // verus!
