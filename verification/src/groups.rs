//! The group extractor: partitions the aggregated items by group and
//! reconstructs each named group's original text from the line spans between
//! its matched delimiter pairs. The first group is always the default one; it
//! carries the whole input text and the complete item list.

use vstd::prelude::*;
use crate::aggregate::{aggregate_sp, lines_to_list, scope_view};
use crate::model::{
    clone_item,
    clone_items,
    system_string,
    system_name,
    Group,
    GroupV,
    Item,
    ItemV,
    Line,
    LineV,
};
use crate::parse::{parse_sp, raw_lines, text_to_lines};
use crate::render::join_chars;
use crate::text::{chars_to_string, join_with, split_lines, string_eq, to_chars};

verus! {

/// The span scanner's state: the group open at this point (with the position
/// after its opening delimiter) and the closed spans so far, in close order.
pub ghost struct ScanState {
    pub cur: Option<(Seq<char>, int)>,
    pub spans: Seq<(Seq<char>, int, int)>,
}

/// One scanner step: only `#[name]` lines matter; the reserved name is
/// skipped, a matching delimiter closes the open span, a delimiter inside a
/// different group is ignored, and any other one opens a span.
pub open spec fn span_step(st: ScanState, l: LineV, idx: int) -> ScanState {
    match l {
        LineV::Group(g) => {
            if g == system_name() {
                st
            } else {
                match st.cur {
                    Some(p) => {
                        if p.0 == g {
                            ScanState { cur: None, spans: st.spans.push((g, p.1, idx)) }
                        } else {
                            st
                        }
                    },
                    None => ScanState { cur: Some((g, idx + 1)), spans: st.spans },
                }
            }
        },
        _ => st,
    }
}

pub open spec fn spans_scan(lines: Seq<LineV>, n: int) -> ScanState
    decreases n,
{
    if n <= 0 {
        ScanState { cur: None, spans: Seq::<(Seq<char>, int, int)>::empty() }
    } else {
        span_step(spans_scan(lines, n - 1), lines[n - 1], n - 1)
    }
}

/// The closed delimiter spans of a line sequence.
pub open spec fn line_spans(lines: Seq<LineV>) -> Seq<(Seq<char>, int, int)> {
    spans_scan(lines, lines.len() as int).spans
}

/// The distinct span names, in first-close order.
pub open spec fn span_names(spans: Seq<(Seq<char>, int, int)>) -> Seq<Seq<char>>
    decreases spans.len(),
{
    if spans.len() == 0 {
        Seq::<Seq<char>>::empty()
    } else {
        let r = span_names(spans.drop_last());
        if r.contains(spans.last().0) {
            r
        } else {
            r.push(spans.last().0)
        }
    }
}

/// The raw lines enclosed by every span of the given name, in file order.
pub open spec fn lines_in_spans(
    raw: Seq<Seq<char>>,
    spans: Seq<(Seq<char>, int, int)>,
    name: Seq<char>,
) -> Seq<Seq<char>>
    decreases spans.len(),
{
    if spans.len() == 0 {
        Seq::<Seq<char>>::empty()
    } else {
        lines_in_spans(raw, spans.drop_last(), name) + if spans.last().0 == name {
            raw.subrange(spans.last().1, spans.last().2)
        } else {
            Seq::<Seq<char>>::empty()
        }
    }
}

/// A named group's reconstructed text: its enclosed raw lines, joined.
pub open spec fn group_text(
    raw: Seq<Seq<char>>,
    spans: Seq<(Seq<char>, int, int)>,
    name: Seq<char>,
) -> Seq<char> {
    join_with(lines_in_spans(raw, spans, name), seq!['\n'])
}

/// The items of the full list that belong to the given group, in order.
pub open spec fn items_of_group(full: Seq<ItemV>, n: Seq<char>) -> Seq<ItemV>
    decreases full.len(),
{
    if full.len() == 0 {
        Seq::<ItemV>::empty()
    } else {
        items_of_group(full.drop_last(), n) + if full.last().group == n {
            seq![full.last()]
        } else {
            Seq::<ItemV>::empty()
        }
    }
}

pub open spec fn named_group_sp(
    raw: Seq<Seq<char>>,
    spans: Seq<(Seq<char>, int, int)>,
    full: Seq<ItemV>,
    n: Seq<char>,
) -> GroupV {
    GroupV { name: n, text: group_text(raw, spans, n), list: items_of_group(full, n) }
}

/// The extracted groups: first the default group with the whole input text
/// and the complete item list, then one group per distinct matched delimiter
/// name, each with its reconstructed text and its own items.
pub open spec fn groups_sp(text: Seq<char>) -> Seq<GroupV> {
    let lines = parse_sp(text);
    let raw = split_lines(text);
    let full = aggregate_sp(lines, None);
    let spans = line_spans(lines);
    seq![GroupV { name: system_name(), text: text, list: full }] + span_names(spans).map_values(
        |n: Seq<char>| named_group_sp(raw, spans, full, n),
    )
}

/// The view of the scanner's open-group register.
pub open spec fn opt_span_view(o: Option<(String, usize)>) -> Option<(Seq<char>, int)> {
    match o {
        Some(p) => Some((p.0@, p.1 as int)),
        None => None,
    }
}

/// The exec span vector mirrors the ghost one.
pub open spec fn spans_rel(sv: Seq<(String, usize, usize)>, gs: Seq<(Seq<char>, int, int)>) -> bool {
    &&& sv.len() == gs.len()
    &&& (forall|j: int|
        0 <= j < gs.len() ==> sv[j].0@ == (#[trigger] gs[j]).0 && sv[j].1 == gs[j].1 && sv[j].2
            == gs[j].2)
}

/// All spans lie within the first `n` lines.
pub open spec fn spans_bounded(gs: Seq<(Seq<char>, int, int)>, n: int) -> bool {
    forall|j: int| 0 <= j < gs.len() ==> 0 <= (#[trigger] gs[j]).1 <= gs[j].2 <= n
}

/// Extracts the ordered groups of a hosts text.
#[verifier::rlimit(100)]
pub fn text_to_groups(text: String) -> (r: Vec<Group>)
    ensures
        r.deep_view() == groups_sp(text@),
{
    let lines = text_to_lines(text.as_str());
    let raw = raw_lines(text.as_str());
    let ghost lv: Seq<LineV> = lines.deep_view();
    let ghost rawv: Seq<Seq<char>> = split_lines(text@);
    let sys = system_string();
    proof {
        assert(lv.len() == rawv.len());
        assert(raw.deep_view().len() == raw@.len());
    }
    // scan the matched delimiter spans
    let mut cur: Option<(String, usize)> = None;
    let mut spans: Vec<(String, usize, usize)> = Vec::new();
    let mut w: usize = 0;
    while w < lines.len()
        invariant
            w <= lines.len(),
            lv == lines.deep_view(),
            lv.len() == lines@.len(),
            sys@ == system_name(),
            opt_span_view(cur) == spans_scan(lv, w as int).cur,
            spans_rel(spans@, spans_scan(lv, w as int).spans),
            spans_bounded(spans_scan(lv, w as int).spans, w as int),
            match cur {
                Some(p) => p.1 <= w,
                None => true,
            },
        decreases lines.len() - w,
    {
        proof {
            assert(lv[w as int] == lines@[w as int].deep_view());
        }
        let ghost sst: ScanState = spans_scan(lv, w as int);
        match &lines[w] {
            Line::Group(g) => {
                if string_eq(g, &sys) {
                } else {
                    let mut close_at: Option<usize> = None;
                    let opened: bool = cur.is_none();
                    match &cur {
                        Some(p) => {
                            if string_eq(&p.0, g) {
                                close_at = Some(p.1);
                            }
                        },
                        None => {},
                    }
                    if opened {
                        cur = Some((g.clone(), w + 1));
                    } else {
                        match close_at {
                            Some(start) => {
                                let ghost prevs: Seq<(String, usize, usize)> = spans@;
                                let entry = (g.clone(), start, w);
                                let ghost entryg: (String, usize, usize) = entry;
                                spans.push(entry);
                                cur = None;
                                proof {
                                    assert(spans@ =~= prevs.push(entryg));
                                    assert(entryg.0@ == g@);
                                }
                            },
                            None => {},
                        }
                    }
                }
            },
            _ => {},
        }
        w = w + 1;
    }
    let ghost gspans: Seq<(Seq<char>, int, int)> = line_spans(lv);
    proof {
        assert(gspans == spans_scan(lv, lv.len() as int).spans);
        assert(spans_rel(spans@, gspans));
        assert(spans_bounded(gspans, lv.len() as int));
    }
    // distinct names, in first-close order
    let mut names: Vec<String> = Vec::new();
    let mut s: usize = 0;
    while s < spans.len()
        invariant
            s <= spans.len(),
            spans_rel(spans@, gspans),
            spans@.len() == gspans.len(),
            names.deep_view() == span_names(gspans.take(s as int)),
        decreases spans.len() - s,
    {
        proof {
            assert(gspans.take(s as int + 1).drop_last() =~= gspans.take(s as int));
            assert(gspans.take(s as int + 1).last() == gspans[s as int]);
            assert(names.deep_view().len() == names@.len());
        }
        let mut seen: bool = false;
        let mut j: usize = 0;
        while j < names.len()
            invariant
                j <= names.len(),
                names.deep_view().len() == names@.len(),
                s < spans@.len(),
                spans_rel(spans@, gspans),
                spans@.len() == gspans.len(),
                !seen ==> forall|m: int|
                    0 <= m < j ==> (#[trigger] names.deep_view()[m]) != gspans[s as int].0,
                seen ==> names.deep_view().contains(gspans[s as int].0),
            decreases names.len() - j,
        {
            if string_eq(&names[j], &spans[s].0) {
                proof {
                    assert(names.deep_view()[j as int] == gspans[s as int].0);
                }
                seen = true;
            }
            proof {
                assert(names.deep_view()[j as int] == names@[j as int]@);
            }
            j = j + 1;
        }
        proof {
            if !seen {
                assert(!names.deep_view().contains(gspans[s as int].0)) by {
                    if names.deep_view().contains(gspans[s as int].0) {
                        let ghost tgt: Seq<char> = gspans[s as int].0;
                        let m = choose|m: int|
                            0 <= m < names.deep_view().len() && names.deep_view()[m] == tgt;
                        assert(names.deep_view()[m] != tgt);
                    }
                }
            }
        }
        if !seen {
            let ghost prevn: Seq<Seq<char>> = names.deep_view();
            names.push(spans[s].0.clone());
            proof {
                assert(names.deep_view() =~~= prevn.push(gspans[s as int].0));
            }
        }
        s = s + 1;
    }
    proof {
        assert(gspans.take(gspans.len() as int) =~= gspans);
    }
    // the complete item list
    let full = lines_to_list(&lines, None);
    let ghost fullv: Seq<ItemV> = aggregate_sp(lv, None);
    proof {
        assert(scope_view(None) == None::<Seq<char>>);
        assert(full.deep_view() == fullv);
        assert(full.deep_view().len() == full@.len());
    }
    // assemble: the default group first, then the named groups
    let ghost gsp: Seq<GroupV> = groups_sp(text@);
    let mut result: Vec<Group> = Vec::new();
    result.push(Group { name: system_string(), text: text.clone(), list: clone_items(&full) });
    proof {
        assert(gsp.len() == 1 + span_names(gspans).len());
        assert(gsp[0] == (GroupV { name: system_name(), text: text@, list: fullv }));
        assert(result.deep_view() =~~= gsp.take(1));
    }
    let nl: Vec<char> = vec!['\n'];
    proof {
        assert(nl@ =~= seq!['\n']);
        assert(names.deep_view().len() == names@.len());
        assert(names.deep_view() == span_names(gspans));
    }
    let mut u: usize = 0;
    while u < names.len()
        invariant
            u <= names.len(),
            nl@ == seq!['\n'],
            lv == lines.deep_view(),
            lv == parse_sp(text@),
            gspans == line_spans(lv),
            fullv == aggregate_sp(lv, None),
            rawv == split_lines(text@),
            lv.len() == lines@.len(),
            rawv.len() == lv.len(),
            raw.deep_view() == rawv,
            raw.deep_view().len() == raw@.len(),
            spans_rel(spans@, gspans),
            spans@.len() == gspans.len(),
            spans_bounded(gspans, rawv.len() as int),
            names.deep_view() == span_names(gspans),
            names.deep_view().len() == names@.len(),
            full.deep_view() == fullv,
            full.deep_view().len() == full@.len(),
            gsp == groups_sp(text@),
            gsp.len() == 1 + names@.len(),
            result.deep_view() == gsp.take(1 + u as int),
        decreases names.len() - u,
    {
        let ghost nm: Seq<char> = names.deep_view()[u as int];
        proof {
            assert(nm == names@[u as int]@);
            assert(gsp[1 + u as int] == named_group_sp(rawv, gspans, fullv, nm));
        }
        // the group's reconstructed text
        let mut rows: Vec<Vec<char>> = Vec::new();
        proof {
            assert(gspans.take(0) =~= Seq::<(Seq<char>, int, int)>::empty());
            assert(rows.deep_view() =~~= lines_in_spans(rawv, gspans.take(0), nm));
        }
        let mut s2: usize = 0;
        while s2 < spans.len()
            invariant
                s2 <= spans.len(),
                nm == names@[u as int]@,
                u < names@.len(),
                rawv == split_lines(text@),
                raw.deep_view() == rawv,
                raw.deep_view().len() == raw@.len(),
                spans_rel(spans@, gspans),
                spans@.len() == gspans.len(),
                spans_bounded(gspans, rawv.len() as int),
                rows.deep_view() == lines_in_spans(rawv, gspans.take(s2 as int), nm),
            decreases spans.len() - s2,
        {
            proof {
                assert(gspans.take(s2 as int + 1).drop_last() =~= gspans.take(s2 as int));
                assert(gspans.take(s2 as int + 1).last() == gspans[s2 as int]);
            }
            if string_eq(&spans[s2].0, &names[u]) {
                let a = spans[s2].1;
                let b = spans[s2].2;
                proof {
                    assert(gspans[s2 as int].0 == nm);
                    assert(0 <= a as int && a as int <= b as int && b as int <= rawv.len());
                }
                let mut idx: usize = a;
                let ghost base_rows: Seq<Seq<char>> = rows.deep_view();
                while idx < b
                    invariant
                        a <= idx <= b,
                        b <= raw@.len(),
                        rawv == split_lines(text@),
                        raw.deep_view() == rawv,
                        raw.deep_view().len() == raw@.len(),
                        rows.deep_view() == base_rows + rawv.subrange(a as int, idx as int),
                    decreases b - idx,
                {
                    let ghost prevr: Seq<Seq<char>> = rows.deep_view();
                    rows.push(to_chars(raw[idx].as_str()));
                    idx = idx + 1;
                    proof {
                        assert(raw.deep_view()[idx - 1] == raw@[idx - 1]@);
                        assert(rows.deep_view() =~~= prevr.push(rawv[idx - 1]));
                        assert(prevr.push(rawv[idx - 1]) =~~= base_rows + rawv.subrange(
                            a as int,
                            idx as int,
                        ));
                    }
                }
                proof {
                    assert(rows.deep_view() =~~= lines_in_spans(rawv, gspans.take(s2 as int), nm)
                        + rawv.subrange(gspans[s2 as int].1, gspans[s2 as int].2));
                }
            } else {
                proof {
                    assert(gspans[s2 as int].0 != nm);
                    assert(rows.deep_view() + Seq::<Seq<char>>::empty() =~~= rows.deep_view());
                }
            }
            s2 = s2 + 1;
        }
        proof {
            assert(gspans.take(gspans.len() as int) =~= gspans);
        }
        let joined = join_chars(&rows, &nl);
        let gtext = chars_to_string(&joined);
        // the group's own items
        let mut litems: Vec<Item> = Vec::new();
        proof {
            assert(fullv.take(0) =~= Seq::<ItemV>::empty());
            assert(litems.deep_view() =~~= items_of_group(fullv.take(0), nm));
        }
        let mut f: usize = 0;
        while f < full.len()
            invariant
                f <= full.len(),
                nm == names@[u as int]@,
                u < names@.len(),
                full.deep_view() == fullv,
                full.deep_view().len() == full@.len(),
                litems.deep_view() == items_of_group(fullv.take(f as int), nm),
            decreases full.len() - f,
        {
            proof {
                assert(fullv.take(f as int + 1).drop_last() =~= fullv.take(f as int));
                assert(fullv.take(f as int + 1).last() == fullv[f as int]);
                assert(fullv[f as int] == full@[f as int].deep_view());
            }
            if string_eq(&full[f].group, &names[u]) {
                let ghost prevl: Seq<ItemV> = litems.deep_view();
                litems.push(clone_item(&full[f]));
                proof {
                    assert(litems.deep_view() =~~= prevl.push(fullv[f as int]));
                    assert(prevl.push(fullv[f as int]) =~~= prevl + seq![fullv[f as int]]);
                }
            } else {
                proof {
                    assert(litems.deep_view() + Seq::<ItemV>::empty() =~~= litems.deep_view());
                }
            }
            f = f + 1;
        }
        proof {
            assert(fullv.take(full@.len() as int) =~= fullv);
        }
        let ghost prevres: Seq<GroupV> = result.deep_view();
        result.push(Group { name: names[u].clone(), text: gtext, list: litems });
        u = u + 1;
        proof {
            assert(result.deep_view() =~~= prevres.push(named_group_sp(rawv, gspans, fullv, nm)));
            assert(prevres.push(named_group_sp(rawv, gspans, fullv, nm)) =~~= gsp.take(
                1 + u as int,
            ));
        }
    }
    proof {
        assert(gsp.take(gsp.len() as int) =~= gsp);
    }
    result
}

} // verus!
