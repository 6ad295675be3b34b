//! Laws of the transform, stated and proved over the same spec functions the
//! executable functions are verified against.

use vstd::prelude::*;
use crate::aggregate::{
    aggregate_sp,
    agg_scan,
    flush_end,
    hosts_of,
    dedup_from,
    dedup_hosts,
    dedup_items,
    entries_values,
};
use crate::groups::{groups_sp, items_of_group, line_spans, named_group_sp, span_names, spans_scan};
use crate::ip::{is_ip_sp, lemma_hash_not_ip, lemma_ip_char_plain, lemma_ip_chars};
use crate::model::{system_name, HostV, ItemV, LineV};
use crate::parse::{
    classify_sp,
    group_name_of,
    is_group_token,
    lemma_classify_trim,
    lemma_collect_hosts_id,
    lemma_collect_hosts_tokens,
    lemma_split_lines_pieces,
    lemma_trim_keeps_free,
    parse_sp,
};
use crate::render::{
    eol_sp,
    render_line,
    render_scan,
    render_sp,
    rendered_rows,
};
use crate::text::{
    is_ws_char,
    join_with,
    lemma_join_with_chars,
    lemma_line_scan_app,
    lemma_line_scan_from_row,
    lemma_split_ws_join,
    lemma_split_ws_single,
    lemma_split_ws_tokens,
    lemma_trim_idempotent,
    lemma_trim_ws_free,
    line_scan,
    line_step,
    line_scan_from,
    split_lines,
    split_ws,
    strip_cr,
    trim_sp,
    ws_free,
};
use crate::synth::{
    append_grps,
    append_sys,
    chunk_lines,
    chunks_of_items,
    hosts_chunk_sp,
    partition_items,
    synth_scan,
    synthesize_sp,
    SynthState,
};

verus! {

/// No two hosts of the list share a name.
pub open spec fn hosts_unique(hs: Seq<HostV>) -> bool {
    forall|a: int, b: int| 0 <= a < b < hs.len() ==> hs[a].content != hs[b].content
}

proof fn lemma_dedup_from_unique(hs: Seq<HostV>, seen: Set<Seq<char>>)
    ensures
        hosts_unique(dedup_from(hs, seen)),
        forall|a: int|
            0 <= a < dedup_from(hs, seen).len() ==> !seen.contains(
                (#[trigger] dedup_from(hs, seen)[a]).content,
            ),
    decreases hs.len(),
{
    if hs.len() > 0 {
        if seen.contains(hs[0].content) {
            lemma_dedup_from_unique(hs.drop_first(), seen);
        } else {
            lemma_dedup_from_unique(hs.drop_first(), seen.insert(hs[0].content));
            let r = dedup_from(hs, seen);
            let rest = dedup_from(hs.drop_first(), seen.insert(hs[0].content));
            assert(r == seq![hs[0]] + rest);
            assert forall|a: int, b: int| 0 <= a < b < r.len() implies r[a].content
                != r[b].content by {
                if a == 0 {
                    assert(rest[b - 1].content != hs[0].content);
                }
            }
        }
    }
}

/// Dedup invariant: within every aggregated item, no two hosts share the same
/// name — whatever lines and scope the aggregation ran over.
pub proof fn lemma_aggregate_dedup(lines: Seq<LineV>, scope: Option<Seq<char>>)
    ensures
        forall|i: int|
            0 <= i < aggregate_sp(lines, scope).len() ==> hosts_unique(
                (#[trigger] aggregate_sp(lines, scope)[i]).hosts,
            ),
{
    let st = agg_scan(lines, scope);
    let vals = entries_values(flush_end(st.out, st.tmp, scope));
    assert forall|i: int| 0 <= i < aggregate_sp(lines, scope).len() implies hosts_unique(
        (#[trigger] aggregate_sp(lines, scope)[i]).hosts,
    ) by {
        assert(aggregate_sp(lines, scope)[i] == (ItemV {
            ip: vals[i].ip,
            hosts: dedup_hosts(vals[i].hosts),
            group: vals[i].group,
        }));
        lemma_dedup_from_unique(vals[i].hosts, Set::<Seq<char>>::empty());
    }
}

/// A synthesized line respects the chunk size: an entry line carries at most
/// ten host names.
pub open spec fn line_chunked(l: LineV) -> bool {
    match l {
        LineV::Valid { hosts, .. } => hosts.len() <= 10,
        _ => true,
    }
}

pub open spec fn all_chunked(lines: Seq<LineV>) -> bool {
    forall|i: int| 0 <= i < lines.len() ==> line_chunked(#[trigger] lines[i])
}

proof fn lemma_chunk_lines_chunked(ip: Seq<char>, hs: Seq<HostV>, enabled: bool)
    ensures
        all_chunked(chunk_lines(ip, hs, enabled)),
    decreases hs.len(),
{
    if hs.len() > 10 {
        lemma_chunk_lines_chunked(ip, hs.skip(10), enabled);
    }
}

proof fn lemma_hosts_chunk_chunked(hosts: Seq<HostV>, ip: Seq<char>)
    ensures
        all_chunked(hosts_chunk_sp(hosts, ip)),
{
    lemma_chunk_lines_chunked(ip, crate::synth::part_scan(hosts, true), true);
    lemma_chunk_lines_chunked(ip, crate::synth::part_scan(hosts, false), false);
}

proof fn lemma_chunks_of_items_chunked(items: Seq<ItemV>)
    ensures
        all_chunked(chunks_of_items(items)),
    decreases items.len(),
{
    if items.len() > 0 {
        lemma_hosts_chunk_chunked(items[0].hosts, items[0].ip);
        lemma_chunks_of_items_chunked(items.drop_first());
    }
}

proof fn lemma_synth_scan_chunked(old: Seq<LineV>, init: SynthState)
    requires
        all_chunked(init.out),
    ensures
        all_chunked(synth_scan(old, init).out),
    decreases old.len(),
{
    if old.len() > 0 {
        lemma_synth_scan_chunked(old.drop_last(), init);
        let st = synth_scan(old.drop_last(), init);
        match old.last() {
            LineV::Valid { ip, hosts, enabled } => {
                if st.cur is None {
                    let j = crate::synth::find_pair(st.sys, ip);
                    if j >= 0 && st.sys[j].1.len() > 0 {
                        lemma_hosts_chunk_chunked(st.sys[j].1, ip);
                    }
                }
            },
            LineV::Group(g) => {
                if g != system_name() {
                    match st.cur {
                        Some(pre) => {
                            if pre == g {
                                let j = crate::synth::find_pair(st.grp, g);
                                if j >= 0 && st.grp[j].1.len() > 0 {
                                    lemma_chunks_of_items_chunked(st.grp[j].1);
                                }
                            }
                        },
                        None => {},
                    }
                }
            },
            _ => {},
        }
    }
}

proof fn lemma_append_sys_chunked(out: Seq<LineV>, sys: Seq<(Seq<char>, Seq<HostV>)>)
    requires
        all_chunked(out),
    ensures
        all_chunked(append_sys(out, sys)),
    decreases sys.len(),
{
    if sys.len() > 0 {
        if sys[0].1.len() > 0 {
            lemma_hosts_chunk_chunked(sys[0].1, sys[0].0);
        }
        lemma_append_sys_chunked(
            out + if sys[0].1.len() > 0 {
                hosts_chunk_sp(sys[0].1, sys[0].0)
            } else {
                Seq::<LineV>::empty()
            },
            sys.drop_first(),
        );
    }
}

proof fn lemma_append_grps_chunked(out: Seq<LineV>, grp: Seq<(Seq<char>, Seq<ItemV>)>)
    requires
        all_chunked(out),
    ensures
        all_chunked(append_grps(out, grp)),
    decreases grp.len(),
{
    if grp.len() > 0 {
        if grp[0].1.len() > 0 {
            lemma_chunks_of_items_chunked(grp[0].1);
        }
        lemma_append_grps_chunked(
            out + if grp[0].1.len() > 0 {
                seq![LineV::Empty, LineV::Group(grp[0].0)] + chunks_of_items(grp[0].1) + seq![
                    LineV::Group(grp[0].0),
                ]
            } else {
                Seq::<LineV>::empty()
            },
            grp.drop_first(),
        );
    }
}

/// Chunk-size invariant: every synthesized entry line carries at most ten
/// host names — whatever items and original lines the synthesis ran over.
pub proof fn lemma_synthesize_chunked(list: Seq<ItemV>, old: Seq<LineV>)
    ensures
        all_chunked(synthesize_sp(list, old)),
{
    let p = partition_items(list);
    let init = SynthState { cur: None, sys: p.0, grp: p.1, out: Seq::<LineV>::empty() };
    lemma_synth_scan_chunked(old, init);
    let st = synth_scan(old, init);
    lemma_append_sys_chunked(st.out, st.sys);
    lemma_append_grps_chunked(append_sys(st.out, st.sys), st.grp);
}

proof fn lemma_items_of_group_tagged(full: Seq<ItemV>, n: Seq<char>)
    ensures
        forall|j: int|
            0 <= j < items_of_group(full, n).len() ==> (#[trigger] items_of_group(full, n)[j]).group
                == n,
    decreases full.len(),
{
    if full.len() > 0 {
        lemma_items_of_group_tagged(full.drop_last(), n);
        let r = items_of_group(full, n);
        let rp = items_of_group(full.drop_last(), n);
        assert forall|j: int| 0 <= j < r.len() implies (#[trigger] r[j]).group == n by {
            if j < rp.len() {
                assert(r[j] == rp[j]);
            } else {
                assert(r[j] == full.last());
            }
        }
    }
}

proof fn lemma_spans_not_system(lines: Seq<LineV>, n: int)
    ensures
        forall|j: int|
            0 <= j < spans_scan(lines, n).spans.len() ==> (#[trigger] spans_scan(
                lines,
                n,
            ).spans[j]).0 != system_name(),
        match spans_scan(lines, n).cur {
            Some(p) => p.0 != system_name(),
            None => true,
        },
    decreases n,
{
    if n > 0 {
        lemma_spans_not_system(lines, n - 1);
    }
}

proof fn lemma_span_names_not_system(spans: Seq<(Seq<char>, int, int)>)
    requires
        forall|j: int| 0 <= j < spans.len() ==> (#[trigger] spans[j]).0 != system_name(),
    ensures
        forall|m: int|
            0 <= m < span_names(spans).len() ==> (#[trigger] span_names(spans)[m]) != system_name(),
    decreases spans.len(),
{
    if spans.len() > 0 {
        lemma_span_names_not_system(spans.drop_last());
        let r = span_names(spans);
        let rp = span_names(spans.drop_last());
        assert forall|m: int| 0 <= m < r.len() implies (#[trigger] r[m]) != system_name() by {
            if m < rp.len() {
                assert(r[m] == rp[m]);
            } else {
                assert(r[m] == spans.last().0);
            }
        }
    }
}

/// Group partition: the first extracted group is the reserved default one,
/// carrying the whole text and the complete item list; every later group has
/// another name, and its list is exactly the items tagged with that name — so
/// none of its items is tagged with the default name, and its list is
/// disjoint from the default-tagged part of the complete list.
pub proof fn lemma_groups_partition(text: Seq<char>)
    ensures
        groups_sp(text).len() >= 1,
        groups_sp(text)[0].name == system_name(),
        groups_sp(text)[0].text == text,
        groups_sp(text)[0].list == aggregate_sp(parse_sp(text), None),
        forall|u: int|
            1 <= u < groups_sp(text).len() ==> (#[trigger] groups_sp(text)[u]).name
                != system_name(),
        forall|u: int|
            1 <= u < groups_sp(text).len() ==> (#[trigger] groups_sp(text)[u]).list
                == items_of_group(aggregate_sp(parse_sp(text), None), groups_sp(text)[u].name),
        forall|u: int, j: int|
            1 <= u < groups_sp(text).len() && 0 <= j < groups_sp(text)[u].list.len() ==> (
            #[trigger] groups_sp(text)[u].list[j]).group == groups_sp(text)[u].name,
{
    let lines = parse_sp(text);
    let spans = line_spans(lines);
    let names = span_names(spans);
    let full = aggregate_sp(lines, None);
    lemma_spans_not_system(lines, lines.len() as int);
    lemma_span_names_not_system(spans);
    assert forall|u: int| 1 <= u < groups_sp(text).len() implies (#[trigger] groups_sp(
        text,
    )[u]).name != system_name() && groups_sp(text)[u].list == items_of_group(
        full,
        groups_sp(text)[u].name,
    ) by {
        assert(groups_sp(text)[u] == named_group_sp(
            crate::text::split_lines(text),
            spans,
            full,
            names[u - 1],
        ));
    }
    assert forall|u: int, j: int|
        1 <= u < groups_sp(text).len() && 0 <= j < groups_sp(text)[u].list.len() implies (
    #[trigger] groups_sp(text)[u].list[j]).group == groups_sp(text)[u].name by {
        lemma_items_of_group_tagged(full, groups_sp(text)[u].name);
    }
}

/// A host name as the classifier produces it: non-empty, whitespace-free and
/// `#`-free.
pub open spec fn host_token(t: Seq<char>) -> bool {
    t.len() > 0 && ws_free(t) && (forall|i: int| 0 <= i < t.len() ==> (#[trigger] t[i]) != '#')
}

/// A line the classifier can produce: an entry has a valid IP and at least
/// one host token; an opaque line classifies to itself and carries no line
/// break; a group name is whitespace-free.
pub open spec fn wf_line(l: LineV) -> bool {
    match l {
        LineV::Valid { ip, hosts, enabled } => {
            &&& is_ip_sp(ip)
            &&& hosts.len() >= 1
            &&& (forall|j: int| 0 <= j < hosts.len() ==> host_token(#[trigger] hosts[j]))
        },
        LineV::Empty => true,
        LineV::Other(s) => classify_sp(s) == LineV::Other(s) && (forall|i: int|
            0 <= i < s.len() ==> (#[trigger] s[i]) != '\n'),
        LineV::Group(n) => ws_free(n),
    }
}

pub open spec fn wf_lines(lines: Seq<LineV>) -> bool {
    forall|i: int| 0 <= i < lines.len() ==> wf_line(#[trigger] lines[i])
}

/// Classifying any break-free line yields a well-formed line.
proof fn lemma_classify_wf(line: Seq<char>)
    requires
        forall|i: int| 0 <= i < line.len() ==> (#[trigger] line[i]) != '\n',
    ensures
        wf_line(classify_sp(line)),
{
    lemma_split_ws_tokens(line);
    lemma_classify_trim(line);
    lemma_trim_keeps_free(line, '\n');
    lemma_trim_idempotent(line);
    let toks = split_ws(line);
    if toks.len() == 0 {
    } else if toks.len() == 1 && is_group_token(toks[0]) {
        assert(ws_free(group_name_of(toks[0]))) by {
            assert(forall|i: int|
                0 <= i < group_name_of(toks[0]).len() ==> (#[trigger] group_name_of(toks[0])[i])
                    == toks[0][i + 2]);
        }
        lemma_trim_ws_free(group_name_of(toks[0]));
    } else {
        let enabled = !(toks[0] == seq!['#']);
        let skip_n: int = if enabled {
            1
        } else {
            2
        };
        if enabled || toks.len() >= 2 {
            let may_ip = if enabled {
                toks[0]
            } else {
                toks[1]
            };
            if is_ip_sp(may_ip) {
                let rest = toks.skip(skip_n);
                assert(forall|j: int|
                    0 <= j < rest.len() ==> (#[trigger] rest[j]) == toks[j + skip_n]);
                lemma_collect_hosts_tokens(rest);
            }
        }
    }
}

/// Every parsed line is well-formed.
pub proof fn lemma_parse_wf(text: Seq<char>)
    ensures
        wf_lines(parse_sp(text)),
{
    lemma_split_lines_pieces(text);
    assert forall|i: int| 0 <= i < parse_sp(text).len() implies wf_line(
        #[trigger] parse_sp(text)[i],
    ) by {
        let piece = split_lines(text)[i];
        assert(parse_sp(text)[i] == classify_sp(piece));
        assert forall|q: int| 0 <= q < piece.len() implies (#[trigger] piece[q]) != '\n' by {
            assert(split_lines(text)[i][q] != '\n');
        }
        lemma_classify_wf(piece);
    }
}

/// Re-classifying the rendered form of a well-formed line gives the line
/// back; blank lines render to the empty row, which classifies blank.
proof fn lemma_classify_render(l: LineV)
    requires
        wf_line(l),
    ensures
        classify_sp(render_line(l)) == l,
{
    match l {
        LineV::Empty => {
            assert(split_ws(Seq::<char>::empty()).len() == 0);
        },
        LineV::Group(n) => {
            let row = seq!['#', '['] + n + seq![']'];
            assert(render_line(l) == row);
            assert(row.len() == n.len() + 3);
            assert(ws_free(row)) by {
                assert(!is_ws_char('#'));
                assert(!is_ws_char('['));
                assert(!is_ws_char(']'));
                assert(forall|i: int|
                    2 <= i < n.len() + 2 ==> (#[trigger] row[i]) == n[i - 2]);
            }
            lemma_split_ws_single(row);
            assert(split_ws(row) == seq![row]);
            assert(split_ws(row)[0] == row);
            assert(row[0] == '#');
            assert(row[1] == '[');
            assert(row.last() == ']');
            assert(is_group_token(row));
            assert(group_name_of(row) =~= n);
            lemma_trim_ws_free(n);
        },
        LineV::Other(s) => {
            assert(render_line(l) == s);
        },
        LineV::Valid { ip, hosts, enabled } => {
            lemma_ip_chars(ip);
            assert(ws_free(ip)) by {
                assert forall|i: int| 0 <= i < ip.len() implies !is_ws_char(#[trigger] ip[i]) by {
                    lemma_ip_char_plain(ip[i]);
                }
            }
            let parts = if enabled {
                seq![ip] + hosts
            } else {
                seq![seq!['#'], ip] + hosts
            };
            assert(render_line(l) == join_with(parts, seq![' ']));
            assert(!is_ws_char('#'));
            assert(forall|j: int|
                0 <= j < parts.len() ==> (#[trigger] parts[j]).len() > 0 && ws_free(parts[j]));
            lemma_split_ws_join(parts);
            let row = join_with(parts, seq![' ']);
            assert(split_ws(row) == parts);
            lemma_hash_not_ip();
            if enabled {
                assert(parts.len() == 1 + hosts.len());
                assert(parts[0] == ip);
                assert(parts.len() >= 2);
                assert(!(parts[0] == seq!['#']));
                let rest = parts.skip(1);
                assert(rest =~= hosts);
                assert(forall|j: int, i: int|
                    0 <= j < hosts.len() && 0 <= i < hosts[j].len() ==> (#[trigger] hosts[j][i])
                        != '#');
                lemma_collect_hosts_id(hosts);
                assert(classify_sp(row) == (LineV::Valid { ip, hosts, enabled }));
            } else {
                assert(parts.len() == 2 + hosts.len());
                assert(parts[0] == seq!['#']);
                assert(parts[1] == ip);
                assert(parts.len() >= 3);
                let rest = parts.skip(2);
                assert(rest =~= hosts);
                assert(forall|j: int, i: int|
                    0 <= j < hosts.len() && 0 <= i < hosts[j].len() ==> (#[trigger] hosts[j][i])
                        != '#');
                lemma_collect_hosts_id(hosts);
                assert(classify_sp(row) == (LineV::Valid { ip, hosts, enabled }));
            }
        },
    }
}

/// A rendered row carries no line break and no carriage return at its end.
pub open spec fn clean_row(r: Seq<char>) -> bool {
    &&& (forall|i: int| 0 <= i < r.len() ==> (#[trigger] r[i]) != '\n')
    &&& (r.len() > 0 ==> r.last() != '\r')
}

proof fn lemma_render_line_clean(l: LineV)
    requires
        wf_line(l),
    ensures
        clean_row(render_line(l)),
{
    match l {
        LineV::Empty => {},
        LineV::Group(n) => {
            let row = seq!['#', '['] + n + seq![']'];
            assert forall|i: int| 0 <= i < row.len() implies (#[trigger] row[i]) != '\n' by {
                if 2 <= i < n.len() + 2 {
                    assert(row[i] == n[i - 2]);
                    assert(!is_ws_char(n[i - 2]));
                }
            }
            assert(row.last() == ']');
        },
        LineV::Other(s) => {
            // a self-classifying opaque line equals its own trim, so it does
            // not end in whitespace
            assert(trim_sp(s) == s);
            lemma_trim_idempotent(s);
            if s.len() > 0 {
                assert(!is_ws_char(s.last()));
                assert(is_ws_char('\r'));
            }
        },
        LineV::Valid { ip, hosts, enabled } => {
            lemma_ip_chars(ip);
            let parts = if enabled {
                seq![ip] + hosts
            } else {
                seq![seq!['#'], ip] + hosts
            };
            let row = join_with(parts, seq![' ']);
            assert(render_line(l) == row);
            assert forall|i: int| 0 <= i < row.len() implies (#[trigger] row[i]) != '\n' && row[i]
                != '\r' by {
                lemma_join_with_chars(parts, seq![' '], i);
                if !seq![' '].contains(row[i]) {
                    let (p, q) = choose|p: int, q: int|
                        0 <= p < parts.len() && 0 <= q < parts[p].len() && (#[trigger] parts[p][q])
                            == row[i];
                    if parts[p] == ip {
                        lemma_ip_char_plain(ip[q]);
                    }
                    assert(is_ws_char('\n'));
                    assert(is_ws_char('\r'));
                } else {
                    assert(seq![' '][0] == ' ');
                }
            }
        },
    }
}

/// Joining clean rows and splitting the result into lines gives the rows
/// back, with the final row as the unterminated rest.
proof fn lemma_split_join_rows(rows: Seq<Seq<char>>, windows: bool)
    requires
        rows.len() >= 1,
        forall|p: int| 0 <= p < rows.len() ==> clean_row(#[trigger] rows[p]),
    ensures
        line_scan(join_with(rows, eol_sp(windows))) == (rows.drop_last(), rows.last()),
    decreases rows.len(),
{
    let eol = eol_sp(windows);
    if rows.len() == 1 {
        assert(join_with(rows, eol) == rows[0]);
        assert(rows[0] =~= Seq::<char>::empty() + rows[0]);
        lemma_line_scan_app(Seq::<char>::empty(), rows[0]);
        lemma_line_scan_from_row(line_scan(Seq::<char>::empty()), rows[0]);
        assert(Seq::<char>::empty() + rows[0] =~= rows[0]);
        assert(line_scan(join_with(rows, eol)).0 =~= rows.drop_last());
    } else {
        let pp = rows.drop_last();
        lemma_split_join_rows(pp, windows);
        let jp = join_with(pp, eol);
        let whole = join_with(rows, eol);
        assert(whole == jp + eol + rows.last());
        assert(jp + eol + rows.last() =~= (jp + eol) + rows.last());
        lemma_line_scan_app(jp, eol);
        let st = line_scan(jp);
        assert(st == (pp.drop_last(), pp.last()));
        if windows {
            assert(eol =~= seq!['\r', '\n']);
            assert(eol.len() == 2);
            assert(eol.drop_last() =~= seq!['\r']);
            assert(eol.last() == '\n');
            assert(seq!['\r'].drop_last() =~= Seq::<char>::empty());
            assert(seq!['\r'].last() == '\r');
            assert(line_scan_from(st, Seq::<char>::empty()) == st);
            assert(line_scan_from(st, seq!['\r']) == line_step(
                line_scan_from(st, Seq::<char>::empty()),
                '\r',
            ));
            assert(line_scan_from(st, seq!['\r']) == (st.0, st.1.push('\r')));
            assert(strip_cr(st.1.push('\r')) =~= st.1);
            assert(line_scan_from(st, eol) == line_step(line_scan_from(st, seq!['\r']), '\n'));
            assert(line_scan_from(st, eol) == (st.0.push(st.1), Seq::<char>::empty()));
        } else {
            assert(eol =~= seq!['\n']);
            assert(eol.len() == 1);
            assert(eol.drop_last() =~= Seq::<char>::empty());
            assert(eol.last() == '\n');
            assert(clean_row(pp.last()));
            assert(strip_cr(st.1) == st.1);
            assert(line_scan_from(st, Seq::<char>::empty()) == st);
            assert(line_scan_from(st, eol) == line_step(
                line_scan_from(st, Seq::<char>::empty()),
                '\n',
            ));
            assert(line_scan_from(st, eol) == (st.0.push(st.1), Seq::<char>::empty()));
        }
        assert(st.0.push(st.1) =~= pp);
        assert(line_scan(jp + eol) == (pp, Seq::<char>::empty()));
        lemma_line_scan_app(jp + eol, rows.last());
        lemma_line_scan_from_row(line_scan(jp + eol), rows.last());
        assert(Seq::<char>::empty() + rows.last() =~= rows.last());
    }
}

/// One collapse step: the line-level mirror of the renderer's row handling.
pub open spec fn collapse_step(st: (Seq<LineV>, bool), l: LineV) -> (Seq<LineV>, bool) {
    match l {
        LineV::Empty => (
            if st.1 {
                st.0
            } else {
                st.0.push(LineV::Empty)
            },
            true,
        ),
        _ => (st.0.push(l), false),
    }
}

pub open spec fn collapse_scan(lines: Seq<LineV>, init_pre: bool) -> (Seq<LineV>, bool)
    decreases lines.len(),
{
    if lines.len() == 0 {
        (Seq::<LineV>::empty(), init_pre)
    } else {
        collapse_step(collapse_scan(lines.drop_last(), init_pre), lines.last())
    }
}

/// The lines with every run of blank lines collapsed to one blank line: what
/// survives a render.
pub open spec fn collapse_lines(lines: Seq<LineV>) -> Seq<LineV> {
    collapse_scan(lines, false).0
}

/// Without a final blank line, if one is left by the collapse.
pub open spec fn trim_trailing_blank(lines: Seq<LineV>) -> Seq<LineV> {
    if lines.len() > 0 && lines.last() is Empty {
        lines.drop_last()
    } else {
        lines
    }
}

/// The renderer's rows are exactly the collapsed lines, rendered.
proof fn lemma_collapse_render(lines: Seq<LineV>, init_pre: bool)
    ensures
        render_scan(lines, init_pre).0 =~~= collapse_scan(lines, init_pre).0.map_values(
            |l: LineV| render_line(l),
        ),
        render_scan(lines, init_pre).1 == collapse_scan(lines, init_pre).1,
    decreases lines.len(),
{
    if lines.len() > 0 {
        lemma_collapse_render(lines.drop_last(), init_pre);
    }
}

/// The collapse only keeps original lines or blank lines, so it preserves
/// well-formedness.
proof fn lemma_collapse_wf(lines: Seq<LineV>, init_pre: bool)
    requires
        wf_lines(lines),
    ensures
        forall|j: int|
            0 <= j < collapse_scan(lines, init_pre).0.len() ==> wf_line(
                #[trigger] collapse_scan(lines, init_pre).0[j],
            ),
    decreases lines.len(),
{
    if lines.len() > 0 {
        assert(wf_lines(lines.drop_last())) by {
            assert(forall|i: int|
                0 <= i < lines.len() - 1 ==> (#[trigger] lines.drop_last()[i]) == lines[i]);
        }
        lemma_collapse_wf(lines.drop_last(), init_pre);
        let prev = collapse_scan(lines.drop_last(), init_pre);
        let st = collapse_scan(lines, init_pre);
        assert(wf_line(lines.last()));
        assert forall|j: int| 0 <= j < st.0.len() implies wf_line(#[trigger] st.0[j]) by {
            if j < prev.0.len() {
                assert(st.0[j] == prev.0[j]);
            }
        }
    }
}

/// After a blank line, the collapse output, if any, ends in a blank line.
proof fn lemma_collapse_last_blank(lines: Seq<LineV>, init_pre: bool)
    ensures
        collapse_scan(lines, init_pre).1 && collapse_scan(lines, init_pre).0.len() > 0
            ==> collapse_scan(lines, init_pre).0.last() is Empty,
        !collapse_scan(lines, init_pre).1 && lines.len() > 0 ==> collapse_scan(
            lines,
            init_pre,
        ).0.len() > 0 && collapse_scan(lines, init_pre).0.last() == lines.last()
            && !(lines.last() is Empty),
    decreases lines.len(),
{
    if lines.len() > 0 {
        lemma_collapse_last_blank(lines.drop_last(), init_pre);
    }
}

/// Render-then-parse round trip, at the line level: parsing the rendered form
/// of well-formed lines gives the lines back, with every run of blank lines
/// collapsed to one and no final blank line — whatever line ending was
/// chosen.
pub proof fn lemma_render_parse(lines: Seq<LineV>, windows: bool)
    requires
        wf_lines(lines),
    ensures
        parse_sp(render_sp(lines, windows)) == trim_trailing_blank(collapse_lines(lines)),
{
    let init = false;
    lemma_collapse_render(lines, init);
    lemma_collapse_wf(lines, init);
    lemma_collapse_last_blank(lines, init);
    let cst = collapse_scan(lines, init);
    let rst = render_scan(lines, init);
    let rows = rendered_rows(lines);
    let eol = eol_sp(windows);
    assert(rst.0.len() == cst.0.len());
    assert(forall|p: int| 0 <= p < cst.0.len() ==> #[trigger] rst.0[p] == render_line(cst.0[p]));
    assert forall|p: int| 0 <= p < rows.len() implies clean_row(#[trigger] rows[p]) by {
        if p < cst.0.len() {
            lemma_render_line_clean(cst.0[p]);
        } else {
            assert(rows[p] =~= Seq::<char>::empty());
        }
    }
    if rows.len() == 0 {
        assert(join_with(rows, eol) =~= Seq::<char>::empty());
        assert(split_lines(render_sp(lines, windows)).len() == 0);
        assert(parse_sp(render_sp(lines, windows)) =~= Seq::<LineV>::empty());
        assert(cst.0 =~~= Seq::<LineV>::empty());
        assert(trim_trailing_blank(collapse_lines(lines)) =~= Seq::<LineV>::empty());
    } else {
        lemma_split_join_rows(rows, windows);
        let pieces = split_lines(render_sp(lines, windows));
        if rst.1 {
            // the rows are exactly the collapsed lines' rows, and they end
            // with the blank row of the final blank run
            assert(rows == rst.0);
            assert(cst.0.len() > 0);
            assert(cst.0.last() is Empty);
            assert(rows.last() =~= Seq::<char>::empty());
            assert(pieces == rows.drop_last());
            assert(parse_sp(render_sp(lines, windows)) =~~= trim_trailing_blank(cst.0)) by {
                assert(trim_trailing_blank(cst.0) == cst.0.drop_last());
                assert forall|j: int|
                    0 <= j < pieces.len() implies #[trigger] parse_sp(render_sp(lines, windows))[j]
                    == cst.0.drop_last()[j] by {
                    assert(pieces[j] == rows[j]);
                    assert(rows[j] == render_line(cst.0[j]));
                    lemma_classify_render(cst.0[j]);
                }
                assert(parse_sp(render_sp(lines, windows)).len() == cst.0.drop_last().len());
            }
        } else {
            // a fresh blank row was appended; re-splitting drops it again
            assert(rows == rst.0.push(Seq::<char>::empty()));
            assert(rows.last() =~= Seq::<char>::empty());
            assert(pieces =~~= rst.0);
            if lines.len() > 0 {
                assert(cst.0.len() > 0 && !(cst.0.last() is Empty));
                assert(trim_trailing_blank(cst.0) == cst.0);
            } else {
                assert(cst.0 =~~= Seq::<LineV>::empty());
            }
            assert(parse_sp(render_sp(lines, windows)) =~~= cst.0) by {
                assert forall|j: int|
                    0 <= j < pieces.len() implies #[trigger] parse_sp(render_sp(lines, windows))[j]
                    == cst.0[j] by {
                    assert(pieces[j] == rst.0[j]);
                    assert(rst.0[j] == render_line(cst.0[j]));
                    lemma_classify_render(cst.0[j]);
                }
                assert(parse_sp(render_sp(lines, windows)).len() == cst.0.len());
            }
        }
    }
}

/// Idempotence of render-then-parse: for any text, parsing the rendered form
/// of its parsed lines gives those lines back up to blank-line collapsing —
/// so rendering again reproduces the same text, under either line ending.
pub proof fn lemma_render_parse_round_trip(text: Seq<char>, windows: bool)
    ensures
        parse_sp(render_sp(parse_sp(text), windows)) == trim_trailing_blank(
            collapse_lines(parse_sp(text)),
        ),
{
    lemma_parse_wf(text);
    lemma_render_parse(parse_sp(text), windows);
}

pub open spec fn line_ip(l: LineV) -> Seq<char> {
    match l {
        LineV::Valid { ip, .. } => ip,
        _ => Seq::<char>::empty(),
    }
}

pub open spec fn line_hosts(l: LineV) -> Seq<Seq<char>> {
    match l {
        LineV::Valid { hosts, .. } => hosts,
        _ => Seq::<Seq<char>>::empty(),
    }
}

pub open spec fn line_enabled(l: LineV) -> bool {
    match l {
        LineV::Valid { enabled, .. } => enabled,
        _ => true,
    }
}

/// Lines a no-op edit reproduces exactly: no group delimiters, each entry
/// line within the chunk size with no duplicated host, and no IP on two
/// entry lines.
pub open spec fn plain_lines(lines: Seq<LineV>) -> bool {
    &&& (forall|i: int| 0 <= i < lines.len() ==> !((#[trigger] lines[i]) is Group))
    &&& (forall|i: int|
        0 <= i < lines.len() && (#[trigger] lines[i]) is Valid ==> line_hosts(lines[i]).len()
            <= 10 && line_hosts(lines[i]).no_duplicates())
    &&& (forall|i: int, j: int|
        0 <= i < j < lines.len() && (#[trigger] lines[i]) is Valid && (#[trigger] lines[j]) is Valid
            ==> line_ip(lines[i]) != line_ip(lines[j]))
}

/// The staged entries plain lines aggregate to: one per entry line, in order.
spec fn plain_entries(lines: Seq<LineV>) -> Seq<(Seq<char>, ItemV)>
    decreases lines.len(),
{
    if lines.len() == 0 {
        Seq::<(Seq<char>, ItemV)>::empty()
    } else {
        plain_entries(lines.drop_last()) + match lines.last() {
            LineV::Valid { ip, hosts, enabled } => seq![
                (
                    crate::model::key_of(system_name(), ip),
                    ItemV { ip, hosts: hosts_of(hosts, enabled), group: system_name() },
                ),
            ],
            _ => Seq::<(Seq<char>, ItemV)>::empty(),
        }
    }
}

/// The pending default-scope host lists after the first `n` lines of the
/// walk: one entry per entry line, emptied once its line was visited.
spec fn pending_after(lines: Seq<LineV>, n: int) -> Seq<(Seq<char>, Seq<HostV>)>
    decreases lines.len(),
{
    if lines.len() == 0 {
        Seq::<(Seq<char>, Seq<HostV>)>::empty()
    } else {
        pending_after(lines.drop_last(), n) + match lines.last() {
            LineV::Valid { ip, hosts, enabled } => seq![
                (
                    ip,
                    if lines.len() - 1 < n {
                        Seq::<HostV>::empty()
                    } else {
                        hosts_of(hosts, enabled)
                    },
                ),
            ],
            _ => Seq::<(Seq<char>, Seq<HostV>)>::empty(),
        }
    }
}

proof fn lemma_key_of_inj(g: Seq<char>, a: Seq<char>, b: Seq<char>)
    requires
        crate::model::key_of(g, a) == crate::model::key_of(g, b),
    ensures
        a == b,
{
    let ka = crate::model::key_of(g, a);
    let kb = crate::model::key_of(g, b);
    assert(ka.len() == g.len() + 1 + a.len());
    assert(kb.len() == g.len() + 1 + b.len());
    assert(a =~= b) by {
        assert(forall|x: int| 0 <= x < a.len() ==> (#[trigger] a[x]) == ka[g.len() + 1 + x]);
        assert(forall|x: int| 0 <= x < b.len() ==> (#[trigger] b[x]) == kb[g.len() + 1 + x]);
    }
}

/// A dropped prefix keeps plainness and well-formedness.
proof fn lemma_plain_prefix(lines: Seq<LineV>)
    requires
        wf_lines(lines),
        plain_lines(lines),
        lines.len() > 0,
    ensures
        wf_lines(lines.drop_last()),
        plain_lines(lines.drop_last()),
{
    assert(forall|i: int|
        0 <= i < lines.len() - 1 ==> (#[trigger] lines.drop_last()[i]) == lines[i]);
}

/// What the staged entries of plain lines look like.
proof fn lemma_plain_entries_props(lines: Seq<LineV>)
    requires
        wf_lines(lines),
        plain_lines(lines),
    ensures
        forall|j: int|
            0 <= j < plain_entries(lines).len() ==> {
                let e = #[trigger] plain_entries(lines)[j];
                &&& e.0 == crate::model::key_of(system_name(), e.1.ip)
                &&& e.1.group == system_name()
                &&& 1 <= e.1.hosts.len() <= 10
                &&& (forall|a: int, b: int|
                    0 <= a < b < e.1.hosts.len() ==> e.1.hosts[a].content != e.1.hosts[b].content)
                &&& exists|m: int|
                    0 <= m < lines.len() && (#[trigger] lines[m]) is Valid && e.1.ip == line_ip(
                        lines[m],
                    )
            },
        forall|j1: int, j2: int|
            0 <= j1 < j2 < plain_entries(lines).len() ==> plain_entries(lines)[j1].1.ip
                != plain_entries(lines)[j2].1.ip,
    decreases lines.len(),
{
    if lines.len() > 0 {
        lemma_plain_prefix(lines);
        lemma_plain_entries_props(lines.drop_last());
        let prev = plain_entries(lines.drop_last());
        let r = plain_entries(lines);
        assert(forall|i: int|
            0 <= i < lines.len() - 1 ==> (#[trigger] lines.drop_last()[i]) == lines[i]);
        match lines.last() {
            LineV::Valid { ip, hosts, enabled } => {
                assert(wf_line(lines.last()));
                assert(r == prev.push(
                    (
                        crate::model::key_of(system_name(), ip),
                        ItemV { ip, hosts: hosts_of(hosts, enabled), group: system_name() },
                    ),
                ));
                assert(lines.last() is Valid);
                assert(line_hosts(lines.last()) == hosts);
                assert(hosts.no_duplicates());
                assert forall|j: int| 0 <= j < r.len() implies {
                    let e = #[trigger] r[j];
                    &&& e.0 == crate::model::key_of(system_name(), e.1.ip)
                    &&& e.1.group == system_name()
                    &&& 1 <= e.1.hosts.len() <= 10
                    &&& (forall|a: int, b: int|
                        0 <= a < b < e.1.hosts.len() ==> e.1.hosts[a].content
                            != e.1.hosts[b].content)
                    &&& exists|m: int|
                        0 <= m < lines.len() && (#[trigger] lines[m]) is Valid && e.1.ip == line_ip(
                            lines[m],
                        )
                } by {
                    if j < prev.len() {
                        assert(r[j] == prev[j]);
                        let m = choose|m: int|
                            0 <= m < lines.drop_last().len() && (#[trigger] lines.drop_last()[m]) is Valid
                                && prev[j].1.ip == line_ip(lines.drop_last()[m]);
                        assert(lines[m] is Valid && r[j].1.ip == line_ip(lines[m]));
                    } else {
                        assert(r[j].1.hosts == hosts_of(hosts, enabled));
                        assert(forall|a: int, b: int|
                            0 <= a < b < hosts.len() ==> (#[trigger] hosts_of(
                                hosts,
                                enabled,
                            )[a]).content != (#[trigger] hosts_of(hosts, enabled)[b]).content);
                        assert(lines[lines.len() - 1] is Valid && r[j].1.ip == line_ip(
                            lines[lines.len() - 1],
                        ));
                    }
                }
                assert forall|j1: int, j2: int| 0 <= j1 < j2 < r.len() implies r[j1].1.ip
                    != r[j2].1.ip by {
                    if j2 < prev.len() {
                        assert(r[j1] == prev[j1] && r[j2] == prev[j2]);
                    } else {
                        assert(r[j1] == prev[j1]);
                        let m = choose|m: int|
                            0 <= m < lines.drop_last().len() && (#[trigger] lines.drop_last()[m]) is Valid
                                && prev[j1].1.ip == line_ip(lines.drop_last()[m]);
                        assert(lines[m] is Valid && m < lines.len() - 1);
                        assert(line_ip(lines[m]) != line_ip(lines[lines.len() - 1]));
                    }
                }
            },
            _ => {
                assert(r =~= prev);
            },
        }
    }
}

/// The pending lists mirror the staged entries: same length, same IPs.
proof fn lemma_pending_align(lines: Seq<LineV>, n: int)
    ensures
        pending_after(lines, n).len() == plain_entries(lines).len(),
        forall|j: int|
            0 <= j < pending_after(lines, n).len() ==> (#[trigger] pending_after(lines, n)[j]).0
                == plain_entries(lines)[j].1.ip,
    decreases lines.len(),
{
    if lines.len() > 0 {
        lemma_pending_align(lines.drop_last(), n);
    }
}

/// Past the end of the lines, nothing more is consumed.
proof fn lemma_pending_ge(lines: Seq<LineV>, a: int, b: int)
    requires
        lines.len() <= a <= b,
    ensures
        pending_after(lines, a) == pending_after(lines, b),
    decreases lines.len(),
{
    if lines.len() > 0 {
        lemma_pending_ge(lines.drop_last(), a, b);
    }
}

/// A non-entry line consumes nothing.
proof fn lemma_pending_skip(lines: Seq<LineV>, i: int)
    requires
        0 <= i < lines.len(),
        !(lines[i] is Valid),
    ensures
        pending_after(lines, i + 1) == pending_after(lines, i),
    decreases lines.len(),
{
    if lines.len() > 0 {
        if i == lines.len() - 1 {
            lemma_pending_ge(lines.drop_last(), i, i + 1);
        } else {
            lemma_pending_skip(lines.drop_last(), i);
        }
    }
}

proof fn lemma_find_pair_concat<T>(a: Seq<(Seq<char>, T)>, b: Seq<(Seq<char>, T)>, k: Seq<char>)
    ensures
        crate::synth::find_pair(a + b, k) == if crate::synth::find_pair(a, k) >= 0 {
            crate::synth::find_pair(a, k)
        } else if crate::synth::find_pair(b, k) >= 0 {
            a.len() + crate::synth::find_pair(b, k)
        } else {
            -1
        },
    decreases a.len(),
{
    if a.len() == 0 {
        assert(a + b =~= b);
    } else {
        assert((a + b)[0] == a[0]);
        assert((a + b).len() > 0);
        assert((a + b).drop_first() =~= a.drop_first() + b);
        lemma_find_pair_concat(a.drop_first(), b, k);
    }
}

/// Visiting an entry line finds its pending entry, full, and consuming it is
/// exactly one more step of the walk's bookkeeping.
proof fn lemma_pending_lookup(lines: Seq<LineV>, i: int)
    requires
        wf_lines(lines),
        plain_lines(lines),
        0 <= i < lines.len(),
        lines[i] is Valid,
    ensures
        ({
            let p = crate::synth::find_pair(pending_after(lines, i), line_ip(lines[i]));
            &&& 0 <= p < pending_after(lines, i).len()
            &&& pending_after(lines, i)[p].0 == line_ip(lines[i])
            &&& pending_after(lines, i)[p].1 == hosts_of(line_hosts(lines[i]), line_enabled(lines[i]))
            &&& pending_after(lines, i).update(
                p,
                (pending_after(lines, i)[p].0, Seq::<HostV>::empty()),
            ) == pending_after(lines, i + 1)
        }),
    decreases lines.len(),
{
    lemma_plain_entries_props(lines);
    lemma_pending_align(lines, i);
    let pend = pending_after(lines, i);
    let ip = line_ip(lines[i]);
    if i == lines.len() - 1 {
        let dl = lines.drop_last();
        lemma_plain_prefix(lines);
        lemma_plain_entries_props(dl);
        lemma_pending_align(dl, i);
        let prevp = pending_after(dl, i);
        // no earlier entry line shares this IP
        assert forall|j: int| 0 <= j < prevp.len() implies (#[trigger] prevp[j]).0 != ip by {
            assert(prevp[j].0 == plain_entries(dl)[j].1.ip);
            let m = choose|m: int|
                0 <= m < dl.len() && (#[trigger] dl[m]) is Valid && plain_entries(dl)[j].1.ip
                    == line_ip(dl[m]);
            assert(lines[m] is Valid && m < i);
            assert(line_ip(lines[m]) != line_ip(lines[i]));
        }
        crate::synth::lemma_find_pair_none(prevp, ip);
        match lines.last() {
            LineV::Valid { ip: lip, hosts, enabled } => {
                let tail = seq![(lip, hosts_of(hosts, enabled))];
                assert(pend == prevp + tail);
                lemma_find_pair_concat(prevp, tail, ip);
                assert(crate::synth::find_pair(tail, ip) == 0);
                let p = crate::synth::find_pair(pend, ip);
                assert(p == prevp.len());
                assert(pend[p] == (lip, hosts_of(hosts, enabled)));
                lemma_pending_ge(dl, i, i + 1);
                assert(pending_after(lines, i + 1) == prevp + seq![(lip, Seq::<HostV>::empty())]);
                assert(pend.update(p, (pend[p].0, Seq::<HostV>::empty())) =~= prevp + seq![
                    (lip, Seq::<HostV>::empty()),
                ]);
            },
            _ => {},
        }
    } else {
        let dl = lines.drop_last();
        lemma_plain_prefix(lines);
        assert(forall|m: int| 0 <= m < dl.len() ==> (#[trigger] dl[m]) == lines[m]);
        lemma_pending_lookup(dl, i);
        let prevp = pending_after(dl, i);
        let p0 = crate::synth::find_pair(prevp, ip);
        match lines.last() {
            LineV::Valid { ip: lip, hosts, enabled } => {
                let tail = seq![(lip, hosts_of(hosts, enabled))];
                assert(pend == prevp + tail);
                lemma_find_pair_concat(prevp, tail, ip);
                let p = crate::synth::find_pair(pend, ip);
                assert(p == p0);
                assert(pend[p] == prevp[p0]);
                assert(pending_after(lines, i + 1) == pending_after(dl, i + 1) + seq![
                    (lip, hosts_of(hosts, enabled)),
                ]);
                assert(pend.update(p, (pend[p].0, Seq::<HostV>::empty())) =~= prevp.update(
                    p0,
                    (prevp[p0].0, Seq::<HostV>::empty()),
                ) + tail);
            },
            _ => {
                assert(pend == prevp);
                assert(pending_after(lines, i + 1) == pending_after(dl, i + 1));
            },
        }
    }
}

/// All flags equal: the partition keeps everything on one side.
proof fn lemma_part_scan_uniform(hv: Seq<HostV>, enabled: bool)
    requires
        forall|j: int| 0 <= j < hv.len() ==> (#[trigger] hv[j]).enabled == enabled,
    ensures
        crate::synth::part_scan(hv, enabled) == hv,
        crate::synth::part_scan(hv, !enabled) == Seq::<HostV>::empty(),
    decreases hv.len(),
{
    if hv.len() > 0 {
        assert(forall|j: int|
            0 <= j < hv.len() - 1 ==> (#[trigger] hv.drop_last()[j]) == hv[j]);
        lemma_part_scan_uniform(hv.drop_last(), enabled);
        assert(hv.drop_last() + seq![hv.last()] =~= hv);
        assert(hv.drop_last() + Seq::<HostV>::empty() =~= hv.drop_last());
    }
}

/// An entry line's host list within the chunk size synthesizes back to
/// exactly that line.
proof fn lemma_chunk_plain(ip: Seq<char>, hosts: Seq<Seq<char>>, enabled: bool)
    requires
        1 <= hosts.len() <= 10,
    ensures
        hosts_chunk_sp(hosts_of(hosts, enabled), ip) == seq![
            LineV::Valid { ip, hosts, enabled },
        ],
{
    let hv = hosts_of(hosts, enabled);
    lemma_part_scan_uniform(hv, enabled);
    assert(crate::synth::contents_seq(hv) =~~= hosts);
    assert(chunk_lines(ip, hv, enabled) == seq![LineV::Valid { ip, hosts, enabled }]);
    if enabled {
        assert(crate::synth::part_scan(hv, true) == hv);
        assert(crate::synth::part_scan(hv, false) == Seq::<HostV>::empty());
        assert(chunk_lines(ip, Seq::<HostV>::empty(), false) == Seq::<LineV>::empty());
        assert(seq![LineV::Valid { ip, hosts, enabled }] + Seq::<LineV>::empty() =~= seq![
            LineV::Valid { ip, hosts, enabled },
        ]);
    } else {
        assert(crate::synth::part_scan(hv, false) == hv);
        assert(crate::synth::part_scan(hv, true) == Seq::<HostV>::empty());
        assert(chunk_lines(ip, Seq::<HostV>::empty(), true) == Seq::<LineV>::empty());
        assert(Seq::<LineV>::empty() + seq![LineV::Valid { ip, hosts, enabled }] =~= seq![
            LineV::Valid { ip, hosts, enabled },
        ]);
    }
}

/// With unique names none of which was seen, dedup changes nothing.
proof fn lemma_dedup_id(hs: Seq<HostV>, seen: Set<Seq<char>>)
    requires
        forall|a: int, b: int| 0 <= a < b < hs.len() ==> hs[a].content != hs[b].content,
        forall|a: int| 0 <= a < hs.len() ==> !seen.contains((#[trigger] hs[a]).content),
    ensures
        dedup_from(hs, seen) == hs,
    decreases hs.len(),
{
    if hs.len() > 0 {
        assert(forall|j: int|
            0 <= j < hs.len() - 1 ==> (#[trigger] hs.drop_first()[j]) == hs[j + 1]);
        lemma_dedup_id(hs.drop_first(), seen.insert(hs[0].content));
        assert(seq![hs[0]] + hs.drop_first() =~= hs);
    }
}

/// The rewritten staged entries, as the end-of-input flush leaves them.
spec fn tmp_rewritten(tmp: Seq<(Seq<char>, ItemV)>, scope: Option<Seq<char>>) -> Seq<
    (Seq<char>, ItemV),
> {
    tmp.map_values(
        |e: (Seq<char>, ItemV)|
            (
                e.0,
                if scope is None {
                    ItemV { ip: e.1.ip, hosts: e.1.hosts, group: system_name() }
                } else {
                    e.1
                },
            ),
    )
}

/// With staged entries already keyed as the default group keys them,
/// pairwise distinct and missing the result, the end flush appends.
proof fn lemma_flush_end_append(
    out: Seq<(Seq<char>, ItemV)>,
    tmp: Seq<(Seq<char>, ItemV)>,
    scope: Option<Seq<char>>,
)
    requires
        scope is None,
        forall|j: int|
            0 <= j < tmp.len() ==> (#[trigger] tmp[j]).0 == crate::model::key_of(
                system_name(),
                tmp[j].1.ip,
            ),
        forall|j1: int, j2: int| 0 <= j1 < j2 < tmp.len() ==> tmp[j1].0 != tmp[j2].0,
        forall|o: int, j: int|
            0 <= o < out.len() && 0 <= j < tmp.len() ==> (#[trigger] out[o]).0 != (
            #[trigger] tmp[j]).0,
    ensures
        flush_end(out, tmp, scope) == out + tmp_rewritten(tmp, scope),
    decreases tmp.len(),
{
    if tmp.len() == 0 {
        assert(out + tmp_rewritten(tmp, scope) =~= out);
    } else {
        let v = tmp[0].1;
        let v2 = ItemV { ip: v.ip, hosts: v.hosts, group: system_name() };
        assert(crate::model::key_of(system_name(), v.ip) == tmp[0].0);
        assert(forall|o: int| 0 <= o < out.len() ==> (#[trigger] out[o]).0 != tmp[0].0);
        crate::aggregate::lemma_find_key_none(out, tmp[0].0);
        let out2 = out.push((tmp[0].0, v2));
        assert(crate::aggregate::merge_entry(out, tmp[0].0, v2) == out2);
        assert(forall|j: int|
            0 <= j < tmp.len() - 1 ==> (#[trigger] tmp.drop_first()[j]) == tmp[j + 1]);
        lemma_flush_end_append(out2, tmp.drop_first(), scope);
        assert(out2 + tmp_rewritten(tmp.drop_first(), scope) =~= out + tmp_rewritten(tmp, scope));
    }
}

/// Plain lines aggregate to exactly one item per entry line, in line order.
proof fn lemma_agg_plain(lines: Seq<LineV>)
    requires
        wf_lines(lines),
        plain_lines(lines),
    ensures
        agg_scan(lines, None) == (crate::aggregate::AggState {
            cur: system_name(),
            tmp: plain_entries(lines),
            out: Seq::<(Seq<char>, ItemV)>::empty(),
        }),
        aggregate_sp(lines, None) == entries_values(plain_entries(lines)),
    decreases lines.len(),
{
    if lines.len() == 0 {
        assert(plain_entries(lines) =~= Seq::<(Seq<char>, ItemV)>::empty());
        assert(flush_end(
            Seq::<(Seq<char>, ItemV)>::empty(),
            Seq::<(Seq<char>, ItemV)>::empty(),
            None,
        ) == Seq::<(Seq<char>, ItemV)>::empty());
        assert(aggregate_sp(lines, None) =~~= entries_values(plain_entries(lines)));
    } else {
        lemma_plain_prefix(lines);
        lemma_agg_plain(lines.drop_last());
        let dl = lines.drop_last();
        let prev = plain_entries(dl);
        lemma_plain_entries_props(lines);
        lemma_plain_entries_props(dl);
        assert(forall|m: int| 0 <= m < dl.len() ==> (#[trigger] dl[m]) == lines[m]);
        match lines.last() {
            LineV::Valid { ip, hosts, enabled } => {
                assert(wf_line(lines.last()));
                assert(hosts.len() >= 1);
                let k = crate::model::key_of(system_name(), ip);
                assert forall|j: int| 0 <= j < prev.len() implies (#[trigger] prev[j]).0 != k by {
                    let m = choose|m: int|
                        0 <= m < dl.len() && (#[trigger] dl[m]) is Valid && prev[j].1.ip == line_ip(
                            dl[m],
                        );
                    assert(lines[m] is Valid && m < lines.len() - 1);
                    assert(line_ip(lines[m]) != ip);
                    if prev[j].0 == k {
                        assert(prev[j].0 == crate::model::key_of(system_name(), prev[j].1.ip));
                        lemma_key_of_inj(system_name(), prev[j].1.ip, ip);
                    }
                }
                crate::aggregate::lemma_find_key_none(prev, k);
                let it = ItemV { ip, hosts: hosts_of(hosts, enabled), group: system_name() };
                assert(crate::aggregate::merge_entry(prev, k, it) == prev.push((k, it)));
                assert(plain_entries(lines) =~= prev.push((k, it)));
            },
            LineV::Group(_) => {
                assert(!(lines.last() is Group));
            },
            _ => {
                assert(plain_entries(lines) =~= prev);
            },
        }
        // the final flush appends everything under distinct keys, with the
        // group rewrite a no-op, and dedup leaves unique host lists alone
        let entries = plain_entries(lines);
        assert forall|j1: int, j2: int| 0 <= j1 < j2 < entries.len() implies entries[j1].0
            != entries[j2].0 by {
            if entries[j1].0 == entries[j2].0 {
                lemma_key_of_inj(system_name(), entries[j1].1.ip, entries[j2].1.ip);
            }
        }
        lemma_flush_end_append(Seq::<(Seq<char>, ItemV)>::empty(), entries, None);
        assert(Seq::<(Seq<char>, ItemV)>::empty() + tmp_rewritten(entries, None) =~= tmp_rewritten(
            entries,
            None,
        ));
        assert(tmp_rewritten(entries, None) =~~= entries);
        assert(aggregate_sp(lines, None) =~~= entries_values(entries)) by {
            assert forall|j: int|
                0 <= j < entries.len() implies #[trigger] dedup_items(entries_values(entries))[j]
                == entries_values(entries)[j] by {
                assert(entries_values(entries)[j] == entries[j].1);
                lemma_dedup_id(entries[j].1.hosts, Set::<Seq<char>>::empty());
            }
        }
    }
}

/// Partitioning the aggregated plain items stages one pending host list per
/// entry line and no named-group items.
proof fn lemma_partition_plain(lines: Seq<LineV>)
    requires
        wf_lines(lines),
        plain_lines(lines),
    ensures
        partition_items(entries_values(plain_entries(lines))) == (
            pending_after(lines, 0),
            Seq::<(Seq<char>, Seq<ItemV>)>::empty(),
        ),
    decreases lines.len(),
{
    if lines.len() == 0 {
        assert(entries_values(plain_entries(lines)) =~= Seq::<ItemV>::empty());
        assert(pending_after(lines, 0) =~= Seq::<(Seq<char>, Seq<HostV>)>::empty());
    } else {
        lemma_plain_prefix(lines);
        lemma_partition_plain(lines.drop_last());
        let dl = lines.drop_last();
        let prev_items = entries_values(plain_entries(dl));
        let items = entries_values(plain_entries(lines));
        lemma_plain_entries_props(dl);
        lemma_pending_align(dl, 0);
        assert(forall|m: int| 0 <= m < dl.len() ==> (#[trigger] dl[m]) == lines[m]);
        match lines.last() {
            LineV::Valid { ip, hosts, enabled } => {
                let it = ItemV { ip, hosts: hosts_of(hosts, enabled), group: system_name() };
                assert(items =~~= prev_items.push(it));
                assert(items.drop_last() =~~= prev_items);
                assert(partition_items(items) == ({
                    let p = partition_items(items.drop_last());
                    (crate::synth::sys_stage(p.0, it.ip, it.hosts), p.1)
                }));
                let pend = pending_after(dl, 0);
                assert forall|j: int| 0 <= j < pend.len() implies (#[trigger] pend[j]).0 != ip by {
                    assert(pend[j].0 == plain_entries(dl)[j].1.ip);
                    let m = choose|m: int|
                        0 <= m < dl.len() && (#[trigger] dl[m]) is Valid && plain_entries(
                            dl,
                        )[j].1.ip == line_ip(dl[m]);
                    assert(lines[m] is Valid && m < lines.len() - 1);
                    assert(line_ip(lines[m]) != ip);
                }
                crate::synth::lemma_find_pair_none(pend, ip);
                assert(crate::synth::sys_stage(pend, it.ip, it.hosts) == pend.push(
                    (ip, hosts_of(hosts, enabled)),
                ));
                assert(pending_after(lines, 0) =~= pend.push((ip, hosts_of(hosts, enabled))));
            },
            LineV::Group(_) => {
                assert(!(lines.last() is Group));
            },
            _ => {
                assert(items =~~= prev_items);
                assert(pending_after(lines, 0) =~= pending_after(dl, 0));
            },
        }
    }
}

/// The walk over plain lines reproduces them one for one, consuming each
/// entry line's pending hosts at its own position.
proof fn lemma_walk_plain(lines: Seq<LineV>, n: int)
    requires
        wf_lines(lines),
        plain_lines(lines),
        0 <= n <= lines.len(),
    ensures
        synth_scan(
            lines.take(n),
            SynthState {
                cur: None,
                sys: pending_after(lines, 0),
                grp: Seq::<(Seq<char>, Seq<ItemV>)>::empty(),
                out: Seq::<LineV>::empty(),
            },
        ) == (SynthState {
            cur: None,
            sys: pending_after(lines, n),
            grp: Seq::<(Seq<char>, Seq<ItemV>)>::empty(),
            out: lines.take(n),
        }),
    decreases n,
{
    let init = SynthState {
        cur: None,
        sys: pending_after(lines, 0),
        grp: Seq::<(Seq<char>, Seq<ItemV>)>::empty(),
        out: Seq::<LineV>::empty(),
    };
    if n == 0 {
        assert(lines.take(0) =~= Seq::<LineV>::empty());
    } else {
        lemma_walk_plain(lines, n - 1);
        assert(lines.take(n).drop_last() =~= lines.take(n - 1));
        assert(lines.take(n).last() == lines[n - 1]);
        let st = synth_scan(lines.take(n - 1), init);
        match lines[n - 1] {
            LineV::Valid { ip, hosts, enabled } => {
                lemma_pending_lookup(lines, n - 1);
                assert(wf_line(lines[n - 1]));
                assert(lines[n - 1] is Valid);
                assert(line_hosts(lines[n - 1]) == hosts);
                assert(1 <= hosts.len() <= 10);
                let p = crate::synth::find_pair(pending_after(lines, n - 1), ip);
                assert(st.sys[p].1 == hosts_of(hosts, enabled));
                assert(st.sys[p].1.len() == hosts.len());
                lemma_chunk_plain(ip, hosts, enabled);
                assert(st.out + hosts_chunk_sp(st.sys[p].1, ip) =~= lines.take(n));
            },
            LineV::Group(_) => {
                assert(!(lines[n - 1] is Group));
            },
            _ => {
                lemma_pending_skip(lines, n - 1);
                assert(st.out.push(lines[n - 1]) =~= lines.take(n));
            },
        }
    }
}

/// Once every line was visited, every pending list is empty.
proof fn lemma_pending_all_empty(lines: Seq<LineV>, n: int)
    requires
        n >= lines.len(),
    ensures
        forall|j: int|
            0 <= j < pending_after(lines, n).len() ==> (#[trigger] pending_after(lines, n)[j]).1
                =~= Seq::<HostV>::empty(),
    decreases lines.len(),
{
    if lines.len() > 0 {
        lemma_pending_all_empty(lines.drop_last(), n);
        let prev = pending_after(lines.drop_last(), n);
        assert forall|j: int|
            0 <= j < pending_after(lines, n).len() implies (#[trigger] pending_after(
            lines,
            n,
        )[j]).1 =~= Seq::<HostV>::empty() by {
            if j < prev.len() {
                assert(pending_after(lines, n)[j] == prev[j]);
            }
        }
    }
}

/// With nothing pending, the end appends nothing.
proof fn lemma_append_sys_empty(out: Seq<LineV>, sys: Seq<(Seq<char>, Seq<HostV>)>)
    requires
        forall|j: int| 0 <= j < sys.len() ==> (#[trigger] sys[j]).1.len() == 0,
    ensures
        append_sys(out, sys) == out,
    decreases sys.len(),
{
    if sys.len() > 0 {
        assert(out + Seq::<LineV>::empty() =~= out);
        assert(forall|j: int|
            0 <= j < sys.len() - 1 ==> (#[trigger] sys.drop_first()[j]) == sys[j + 1]);
        lemma_append_sys_empty(out, sys.drop_first());
    }
}

/// The synthesizer's starting state for an edited item list.
pub open spec fn synth_init(list: Seq<ItemV>) -> SynthState {
    SynthState {
        cur: None,
        sys: partition_items(list).0,
        grp: partition_items(list).1,
        out: Seq::<LineV>::empty(),
    }
}

/// A found key names an in-range pair that carries it.
proof fn lemma_find_pair_props<T>(entries: Seq<(Seq<char>, T)>, k: Seq<char>)
    ensures
        crate::synth::find_pair(entries, k) == -1 || (0 <= crate::synth::find_pair(entries, k)
            < entries.len() && entries[crate::synth::find_pair(entries, k)].0 == k),
    decreases entries.len(),
{
    if entries.len() > 0 && entries[0].0 != k {
        lemma_find_pair_props(entries.drop_first(), k);
    }
}

/// The walk only consumes pending values; the keys never change.
proof fn lemma_walk_sys_keys(old: Seq<LineV>, init: SynthState)
    ensures
        synth_scan(old, init).sys.len() == init.sys.len(),
        forall|j: int|
            0 <= j < init.sys.len() ==> (#[trigger] synth_scan(old, init).sys[j]).0
                == init.sys[j].0,
    decreases old.len(),
{
    if old.len() > 0 {
        lemma_walk_sys_keys(old.drop_last(), init);
        let st = synth_scan(old.drop_last(), init);
        let nxt = synth_scan(old, init);
        match old.last() {
            LineV::Valid { ip, .. } => {
                lemma_find_pair_props(st.sys, ip);
            },
            _ => {},
        }
        assert forall|j: int| 0 <= j < init.sys.len() implies (#[trigger] nxt.sys[j]).0
            == init.sys[j].0 by {
            assert(st.sys[j].0 == init.sys[j].0);
        }
    }
}

/// Every pending default-scope key is the IP of some default-group item.
proof fn lemma_partition_sys_keys(list: Seq<ItemV>)
    ensures
        forall|j: int|
            0 <= j < partition_items(list).0.len() ==> exists|m: int|
                0 <= m < list.len() && (#[trigger] list[m]).group == system_name() && (
                #[trigger] partition_items(list).0[j]).0 == list[m].ip,
    decreases list.len(),
{
    if list.len() > 0 {
        lemma_partition_sys_keys(list.drop_last());
        let prev = partition_items(list.drop_last()).0;
        let cur = partition_items(list).0;
        assert(forall|m: int|
            0 <= m < list.len() - 1 ==> (#[trigger] list.drop_last()[m]) == list[m]);
        assert forall|j: int| 0 <= j < cur.len() implies exists|m: int|
            0 <= m < list.len() && (#[trigger] list[m]).group == system_name() && (
            #[trigger] cur[j]).0 == list[m].ip by {
            if list.last().group == system_name() {
                let f = crate::synth::find_pair(prev, list.last().ip);
                lemma_find_pair_props(prev, list.last().ip);
                if f >= 0 {
                    // an update keeps every key; reuse the witness
                    assert(cur[j].0 == prev[j].0);
                    let m = choose|m: int|
                        0 <= m < list.drop_last().len() && (#[trigger] list.drop_last()[m]).group
                            == system_name() && prev[j].0 == list.drop_last()[m].ip;
                    assert(list[m].group == system_name() && cur[j].0 == list[m].ip);
                } else {
                    if j < prev.len() {
                        assert(cur[j].0 == prev[j].0);
                        let m = choose|m: int|
                            0 <= m < list.drop_last().len() && (#[trigger] list.drop_last()[m]).group
                                == system_name() && prev[j].0 == list.drop_last()[m].ip;
                        assert(list[m].group == system_name() && cur[j].0 == list[m].ip);
                    } else {
                        assert(cur[j].0 == list.last().ip);
                        assert(list[list.len() - 1].group == system_name() && cur[j].0 == list[
                            list.len() - 1].ip);
                    }
                }
            } else {
                assert(cur[j] == prev[j]);
                let m = choose|m: int|
                    0 <= m < list.drop_last().len() && (#[trigger] list.drop_last()[m]).group
                        == system_name() && prev[j].0 == list.drop_last()[m].ip;
                assert(list[m].group == system_name() && cur[j].0 == list[m].ip);
            }
        }
    }
}

/// A removed IP leaves a blank line in place: when an original entry line at
/// the default scope names an IP for which the edited list holds no
/// default-group item, the walk replaces exactly that line by a blank line at
/// the same place in its output; the renderer then collapses that blank with
/// any adjacent blank line, as the render-then-parse law states.
pub proof fn lemma_removed_ip_blank(list: Seq<ItemV>, old: Seq<LineV>, p: int)
    requires
        0 <= p < old.len(),
        old[p] is Valid,
        synth_scan(old.take(p), synth_init(list)).cur is None,
        forall|m: int|
            0 <= m < list.len() && (#[trigger] list[m]).group == system_name() ==> list[m].ip
                != line_ip(old[p]),
    ensures
        synth_scan(old.take(p + 1), synth_init(list)).out == synth_scan(
            old.take(p),
            synth_init(list),
        ).out.push(LineV::Empty),
{
    let init = synth_init(list);
    let st = synth_scan(old.take(p), init);
    assert(old.take(p + 1).drop_last() =~= old.take(p));
    assert(old.take(p + 1).last() == old[p]);
    lemma_walk_sys_keys(old.take(p), init);
    lemma_partition_sys_keys(list);
    let ip = line_ip(old[p]);
    assert forall|j: int| 0 <= j < st.sys.len() implies (#[trigger] st.sys[j]).0 != ip by {
        assert(st.sys[j].0 == partition_items(list).0[j].0);
        let m = choose|m: int|
            0 <= m < list.len() && (#[trigger] list[m]).group == system_name() && partition_items(
                list,
            ).0[j].0 == list[m].ip;
        assert(list[m].ip != ip);
    }
    crate::synth::lemma_find_pair_none(st.sys, ip);
    match old[p] {
        LineV::Valid { ip: vip, hosts, enabled } => {
            assert(vip == ip);
        },
        _ => {},
    }
}

/// No-op edit round trip: synthesizing the aggregated items of plain lines
/// over those same lines reproduces them exactly — so rendering an unedited
/// item list reproduces the rendered text, under either line ending. Lines
/// with group delimiters, with an IP on two lines, with duplicated hosts or
/// with more hosts than one chunk holds are re-normalized instead, and are
/// left out here.
pub proof fn lemma_no_op_edit(lines: Seq<LineV>, windows: bool)
    requires
        wf_lines(lines),
        plain_lines(lines),
    ensures
        synthesize_sp(aggregate_sp(lines, None), lines) == lines,
        render_sp(synthesize_sp(aggregate_sp(lines, None), lines), windows) == render_sp(
            lines,
            windows,
        ),
{
    lemma_agg_plain(lines);
    lemma_partition_plain(lines);
    assert(partition_items(aggregate_sp(lines, None)) == (
        pending_after(lines, 0),
        Seq::<(Seq<char>, Seq<ItemV>)>::empty(),
    ));
    lemma_walk_plain(lines, lines.len() as int);
    assert(lines.take(lines.len() as int) =~= lines);
    let fst = synth_scan(
        lines,
        SynthState {
            cur: None,
            sys: pending_after(lines, 0),
            grp: Seq::<(Seq<char>, Seq<ItemV>)>::empty(),
            out: Seq::<LineV>::empty(),
        },
    );
    lemma_pending_all_empty(lines, lines.len() as int);
    lemma_append_sys_empty(fst.out, fst.sys);
    assert(append_grps(lines, Seq::<(Seq<char>, Seq<ItemV>)>::empty()) == lines);
}

} // verus!
