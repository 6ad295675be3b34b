//! The line classifier: one physical line of text becomes one typed
//! [`Line`], and a whole text becomes the sequence of its classified lines.

use vstd::prelude::*;
use crate::ip::{is_ip_chars, is_ip_sp};
use crate::model::{Line, LineV};
use crate::text::{
    chars_to_string,
    copy_range,
    is_ws,
    split_lines,
    split_ws,
    line_scan,
    to_chars,
    tokenize,
    trim_chars,
    trim_sp,
};

verus! {

/// Whether a single token is a `#[name]` group delimiter.
pub open spec fn is_group_token(t: Seq<char>) -> bool {
    t.len() >= 3 && t[0] == '#' && t[1] == '[' && t.last() == ']'
}

/// The name inside a `#[name]` token, before trimming.
pub open spec fn group_name_of(t: Seq<char>) -> Seq<char> {
    t.subrange(2, t.len() - 1)
}

/// The part of a token before its first `#`, and whether a `#` occurs.
pub open spec fn hash_split(t: Seq<char>) -> (Seq<char>, bool)
    decreases t.len(),
{
    if t.len() == 0 {
        (Seq::<char>::empty(), false)
    } else if t[0] == '#' {
        (Seq::<char>::empty(), true)
    } else {
        let r = hash_split(t.drop_first());
        (seq![t[0]] + r.0, r.1)
    }
}

/// Collects host tokens until the token list ends or a token containing `#`
/// is reached; of that token only the non-empty part before the `#` is kept.
pub open spec fn collect_hosts(toks: Seq<Seq<char>>) -> Seq<Seq<char>>
    decreases toks.len(),
{
    if toks.len() == 0 {
        Seq::<Seq<char>>::empty()
    } else {
        let hs = hash_split(toks[0]);
        if hs.1 {
            if hs.0.len() > 0 {
                seq![hs.0]
            } else {
                Seq::<Seq<char>>::empty()
            }
        } else {
            seq![toks[0]] + collect_hosts(toks.drop_first())
        }
    }
}

/// The classification of one physical line, as the specification prescribes:
/// blank lines are `Empty`; a lone `#[name]` token is a `Group`; a line whose
/// first token (after an optional lone `#`) is a valid IP address and that
/// carries at least one host token is `Valid`; anything else is `Other`,
/// trimmed.
pub open spec fn classify_sp(line: Seq<char>) -> LineV {
    let toks = split_ws(line);
    if toks.len() == 0 {
        LineV::Empty
    } else if toks.len() == 1 && is_group_token(toks[0]) {
        LineV::Group(trim_sp(group_name_of(toks[0])))
    } else {
        let enabled = !(toks[0] == seq!['#']);
        if !enabled && toks.len() < 2 {
            LineV::Other(trim_sp(line))
        } else {
            let may_ip = if enabled {
                toks[0]
            } else {
                toks[1]
            };
            if !is_ip_sp(may_ip) {
                LineV::Other(trim_sp(line))
            } else {
                let hosts = collect_hosts(
                    toks.skip(
                        if enabled {
                            1int
                        } else {
                            2int
                        },
                    ),
                );
                if hosts.len() == 0 {
                    LineV::Other(trim_sp(line))
                } else {
                    LineV::Valid { ip: may_ip, hosts, enabled }
                }
            }
        }
    }
}

/// Spec-level classification of a whole line list.
pub open spec fn classify_all(ls: Seq<Seq<char>>) -> Seq<LineV> {
    ls.map_values(|l: Seq<char>| classify_sp(l))
}

/// The whole text, split into lines and classified line by line.
pub open spec fn parse_sp(text: Seq<char>) -> Seq<LineV> {
    classify_all(split_lines(text))
}

/// Without a `#`, the whole token is the prefix.
proof fn lemma_hash_split_no_hash(t: Seq<char>)
    ensures
        !hash_split(t).1 ==> hash_split(t).0 == t,
    decreases t.len(),
{
    if t.len() > 0 && t[0] != '#' {
        lemma_hash_split_no_hash(t.drop_first());
        if !hash_split(t).1 {
            assert(seq![t[0]] + t.drop_first() =~= t);
        }
    }
}

/// Splits one token at its first `#`.
fn split_tok_at_hash(t: &Vec<char>) -> (r: (Vec<char>, bool))
    ensures
        r.0@ == hash_split(t@).0,
        r.1 == hash_split(t@).1,
{
    proof {
        assert(t@.skip(0) =~= t@);
        assert(t@.take(0) + hash_split(t@).0 =~= hash_split(t@).0);
    }
    let mut k: usize = 0;
    while k < t.len()
        invariant
            0 <= k <= t.len(),
            forall|m: int| 0 <= m < k ==> t@[m] != '#',
            hash_split(t@).0 == t@.take(k as int) + hash_split(t@.skip(k as int)).0,
            hash_split(t@).1 == hash_split(t@.skip(k as int)).1,
        ensures
            0 <= k <= t.len(),
            hash_split(t@).0 == t@.take(k as int) + hash_split(t@.skip(k as int)).0,
            hash_split(t@).1 == hash_split(t@.skip(k as int)).1,
            k < t.len() ==> t@[k as int] == '#',
            k == t.len() ==> hash_split(t@.skip(k as int)).1 == false,
        decreases t.len() - k,
    {
        if t[k] == '#' {
            break ;
        }
        proof {
            assert(t@.skip(k as int)[0] == t@[k as int]);
            assert(t@.skip(k as int).drop_first() =~= t@.skip(k as int + 1));
            assert(t@.take(k as int + 1) =~= t@.take(k as int) + seq![t@[k as int]]);
            assert(t@.take(k as int) + (seq![t@[k as int]] + hash_split(t@.skip(k as int + 1)).0)
                =~= t@.take(k as int + 1) + hash_split(t@.skip(k as int + 1)).0);
        }
        k = k + 1;
    }
    if k < t.len() {
        proof {
            assert(t@.skip(k as int)[0] == '#');
            assert(hash_split(t@.skip(k as int)).0 =~= Seq::<char>::empty());
            assert(hash_split(t@).0 =~= t@.take(k as int));
        }
        let pre = copy_range(t, 0, k);
        proof {
            assert(pre@ =~= t@.take(k as int));
        }
        (pre, true)
    } else {
        proof {
            assert(t@.skip(k as int) =~= Seq::<char>::empty());
            assert(hash_split(t@).0 =~= t@.take(k as int));
            assert(t@.take(k as int) =~= t@);
        }
        let pre = copy_range(t, 0, t.len());
        proof {
            assert(pre@ =~= t@);
        }
        (pre, false)
    }
}

/// Classifies one physical line.
#[verifier::rlimit(60)]
pub fn classify(line: &Vec<char>) -> (r: Line)
    ensures
        r.deep_view() == classify_sp(line@),
{
    let toks = tokenize(line);
    let ghost tv: Seq<Seq<char>> = toks.deep_view();
    proof {
        assert(tv.len() == toks@.len());
    }
    if toks.len() == 0 {
        return Line::Empty;
    }
    if toks.len() == 1 {
        let t = &toks[0];
        proof {
            assert(tv[0] =~= toks@[0]@);
        }
        if t.len() >= 3 && t[0] == '#' && t[1] == '[' && t[t.len() - 1] == ']' {
            let inner = copy_range(t, 2, t.len() - 1);
            let name = trim_chars(&inner);
            proof {
                assert(inner@ =~= group_name_of(tv[0]));
            }
            return Line::Group(chars_to_string(&name));
        }
    }
    proof {
        assert(tv[0] =~= toks@[0]@);
    }
    let enabled = !(toks[0].len() == 1 && toks[0][0] == '#');
    proof {
        if toks@[0]@.len() == 1 && toks@[0]@[0] == '#' {
            assert(tv[0] =~= seq!['#']);
        } else {
            assert(!(tv[0] =~= seq!['#'])) by {
                if tv[0] =~= seq!['#'] {
                    assert(toks@[0]@.len() == 1 && toks@[0]@[0] == '#');
                }
            }
        }
    }
    if !enabled && toks.len() < 2 {
        let tr = trim_chars(line);
        return Line::Other(chars_to_string(&tr));
    }
    let ip_ix: usize = if enabled {
        0
    } else {
        1
    };
    proof {
        assert(tv[ip_ix as int] =~= toks@[ip_ix as int]@);
    }
    let ip_ok = is_ip_chars(&toks[ip_ix]);
    if !ip_ok {
        let tr = trim_chars(line);
        return Line::Other(chars_to_string(&tr));
    }
    let skip_n: usize = if enabled {
        1
    } else {
        2
    };
    let ghost full: Seq<Seq<char>> = tv.skip(skip_n as int);
    let mut hosts: Vec<String> = Vec::new();
    let mut j: usize = skip_n;
    loop
        invariant_except_break
            collect_hosts(full) == hosts.deep_view() + collect_hosts(tv.skip(j as int)),
        invariant
            skip_n <= j <= toks.len(),
            tv == toks.deep_view(),
            tv.len() == toks@.len(),
            full == tv.skip(skip_n as int),
        ensures
            hosts.deep_view() == collect_hosts(full),
        decreases toks.len() - j,
    {
        if j >= toks.len() {
            proof {
                assert(tv.skip(j as int) =~= Seq::<Seq<char>>::empty());
                assert(hosts.deep_view() + collect_hosts(tv.skip(j as int)) =~~= hosts.deep_view());
            }
            break ;
        }
        proof {
            assert(tv[j as int] =~= toks@[j as int]@);
            assert(tv.skip(j as int)[0] == tv[j as int]);
            assert(tv.skip(j as int).drop_first() =~= tv.skip(j as int + 1));
        }
        let (pre, hashed) = split_tok_at_hash(&toks[j]);
        if hashed {
            if pre.len() > 0 {
                let ghost prev: Seq<Seq<char>> = hosts.deep_view();
                hosts.push(chars_to_string(&pre));
                proof {
                    assert(hosts.deep_view() =~~= prev.push(pre@));
                    assert(collect_hosts(tv.skip(j as int)) =~= seq![pre@]);
                    assert(prev + seq![pre@] =~= prev.push(pre@));
                    assert(hosts.deep_view() =~~= collect_hosts(full));
                }
            } else {
                proof {
                    assert(collect_hosts(tv.skip(j as int)) =~= Seq::<Seq<char>>::empty());
                    assert(hosts.deep_view() + Seq::<Seq<char>>::empty() =~~= hosts.deep_view());
                }
            }
            break ;
        }
        let ghost prev: Seq<Seq<char>> = hosts.deep_view();
        hosts.push(chars_to_string(&pre));
        proof {
            lemma_hash_split_no_hash(tv[j as int]);
            assert(pre@ =~= tv[j as int]);
            assert(hosts.deep_view() =~~= prev.push(tv[j as int]));
            assert(collect_hosts(tv.skip(j as int)) == seq![tv[j as int]] + collect_hosts(
                tv.skip(j as int + 1),
            ));
            assert(prev + (seq![tv[j as int]] + collect_hosts(tv.skip(j as int + 1))) =~~= prev.push(
                tv[j as int],
            ) + collect_hosts(tv.skip(j as int + 1)));
        }
        j = j + 1;
    }
    if hosts.len() == 0 {
        let tr = trim_chars(line);
        return Line::Other(chars_to_string(&tr));
    }
    let ip = chars_to_string(&toks[ip_ix]);
    Line::Valid { ip, hosts, enabled }
}

/// Splits the text into physical lines and classifies each one.
pub fn text_to_lines(text: &str) -> (r: Vec<Line>)
    ensures
        r.deep_view() == parse_sp(text@),
{
    let chars = to_chars(text);
    let mut lines: Vec<Line> = Vec::new();
    let mut cur: Vec<char> = Vec::new();
    let mut i: usize = 0;
    while i < chars.len()
        invariant
            i <= chars.len(),
            chars@ == text@,
            lines.deep_view() == classify_all(line_scan(text@.take(i as int)).0),
            cur@ == line_scan(text@.take(i as int)).1,
        decreases chars.len() - i,
    {
        proof {
            assert(text@.take(i as int + 1).drop_last() =~= text@.take(i as int));
            assert(text@.take(i as int + 1).last() == text@[i as int]);
        }
        let c = chars[i];
        if c == '\n' {
            if cur.len() > 0 && cur[cur.len() - 1] == '\r' {
                cur.pop();
            }
            let ghost prev: Seq<LineV> = lines.deep_view();
            let ghost curv: Seq<char> = cur@;
            let l = classify(&cur);
            lines.push(l);
            cur = Vec::new();
            proof {
                assert(lines.deep_view() =~= prev.push(classify_sp(curv)));
                assert(classify_all(line_scan(text@.take(i as int)).0.push(curv)) =~= prev.push(
                    classify_sp(curv),
                ));
            }
        } else {
            cur.push(c);
        }
        i = i + 1;
    }
    proof {
        assert(text@.take(chars.len() as int) =~= text@);
    }
    if cur.len() > 0 {
        let ghost prev: Seq<LineV> = lines.deep_view();
        let ghost curv: Seq<char> = cur@;
        let l = classify(&cur);
        lines.push(l);
        proof {
            assert(lines.deep_view() =~= prev.push(classify_sp(curv)));
            assert(classify_all(line_scan(text@).0.push(curv)) =~= prev.push(classify_sp(curv)));
        }
    }
    lines
}

/// A token without a `#` is split into itself and a cleared flag.
pub proof fn lemma_hash_split_free(t: Seq<char>)
    requires
        forall|i: int| 0 <= i < t.len() ==> (#[trigger] t[i]) != '#',
    ensures
        hash_split(t).1 == false,
        hash_split(t).0 == t,
    decreases t.len(),
{
    if t.len() > 0 {
        lemma_hash_split_free(t.drop_first());
        assert(seq![t[0]] + t.drop_first() =~= t);
    }
}

/// The part before the first `#` is a `#`-free prefix of the token.
pub proof fn lemma_hash_split_prefix(t: Seq<char>)
    ensures
        hash_split(t).0.len() <= t.len(),
        hash_split(t).0 == t.take(hash_split(t).0.len() as int),
        forall|i: int| 0 <= i < hash_split(t).0.len() ==> (#[trigger] hash_split(t).0[i]) != '#',
    decreases t.len(),
{
    if t.len() > 0 && t[0] != '#' {
        lemma_hash_split_prefix(t.drop_first());
        let r = hash_split(t).0;
        let rp = hash_split(t.drop_first()).0;
        assert(r == seq![t[0]] + rp);
        assert(rp == t.drop_first().take(rp.len() as int));
        assert(seq![t[0]] + t.drop_first().take(rp.len() as int) =~= t.take(rp.len() as int + 1));
    }
}

/// `#`-free tokens are collected whole.
pub proof fn lemma_collect_hosts_id(toks: Seq<Seq<char>>)
    requires
        forall|j: int, i: int|
            0 <= j < toks.len() && 0 <= i < toks[j].len() ==> (#[trigger] toks[j][i]) != '#',
    ensures
        collect_hosts(toks) == toks,
    decreases toks.len(),
{
    if toks.len() > 0 {
        lemma_hash_split_free(toks[0]);
        lemma_collect_hosts_id(toks.drop_first());
        assert(seq![toks[0]] + toks.drop_first() =~= toks);
    }
}

/// Collected host tokens are non-empty, whitespace-free and `#`-free.
pub proof fn lemma_collect_hosts_tokens(toks: Seq<Seq<char>>)
    requires
        forall|j: int|
            0 <= j < toks.len() ==> (#[trigger] toks[j]).len() > 0 && crate::text::ws_free(
                toks[j],
            ),
    ensures
        forall|m: int|
            0 <= m < collect_hosts(toks).len() ==> {
                let h = #[trigger] collect_hosts(toks)[m];
                h.len() > 0 && crate::text::ws_free(h) && (forall|i: int|
                    0 <= i < h.len() ==> (#[trigger] h[i]) != '#')
            },
    decreases toks.len(),
{
    if toks.len() > 0 {
        lemma_hash_split_prefix(toks[0]);
        let hs = hash_split(toks[0]);
        if hs.1 {
            assert(crate::text::ws_free(hs.0)) by {
                assert(forall|i: int|
                    0 <= i < hs.0.len() ==> (#[trigger] hs.0[i]) == toks[0][i]);
            }
        } else {
            assert(toks.drop_first().len() == toks.len() - 1);
            lemma_collect_hosts_tokens(toks.drop_first());
            let r = collect_hosts(toks);
            let rp = collect_hosts(toks.drop_first());
            assert(r == seq![toks[0]] + rp);
            assert forall|m: int| 0 <= m < r.len() implies {
                let h = #[trigger] r[m];
                h.len() > 0 && crate::text::ws_free(h) && (forall|i: int|
                    0 <= i < h.len() ==> (#[trigger] h[i]) != '#')
            } by {
                if m == 0 {
                    lemma_hash_split_free_conv(toks[0]);
                } else {
                    assert(r[m] == rp[m - 1]);
                }
            }
        }
    }
}

/// Without the flag set, the token carried no `#` at all.
proof fn lemma_hash_split_free_conv(t: Seq<char>)
    requires
        !hash_split(t).1,
    ensures
        forall|i: int| 0 <= i < t.len() ==> (#[trigger] t[i]) != '#',
    decreases t.len(),
{
    if t.len() > 0 && t[0] != '#' {
        lemma_hash_split_free_conv(t.drop_first());
        assert(forall|i: int|
            1 <= i < t.len() ==> (#[trigger] t[i]) == t.drop_first()[i - 1]);
    }
}

/// The pieces the line splitter yields carry no line break.
pub proof fn lemma_split_lines_pieces(s: Seq<char>)
    ensures
        forall|p: int, i: int|
            0 <= p < split_lines(s).len() && 0 <= i < split_lines(s)[p].len() ==> (
            #[trigger] split_lines(s)[p][i]) != '\n',
{
    lemma_line_scan_pieces(s);
}

proof fn lemma_line_scan_pieces(s: Seq<char>)
    ensures
        forall|i: int| 0 <= i < line_scan(s).1.len() ==> (#[trigger] line_scan(s).1[i]) != '\n',
        forall|p: int, i: int|
            0 <= p < line_scan(s).0.len() && 0 <= i < line_scan(s).0[p].len() ==> (
            #[trigger] line_scan(s).0[p][i]) != '\n',
    decreases s.len(),
{
    if s.len() > 0 {
        lemma_line_scan_pieces(s.drop_last());
        let prev = line_scan(s.drop_last());
        let st = line_scan(s);
        assert forall|p: int, i: int|
            0 <= p < st.0.len() && 0 <= i < st.0[p].len() implies (#[trigger] st.0[p][i])
            != '\n' by {
            if s.last() == '\n' {
                if p < prev.0.len() {
                    assert(st.0[p] == prev.0[p]);
                } else {
                    assert(st.0[p] == crate::text::strip_cr(prev.1));
                    assert(crate::text::strip_cr(prev.1)[i] == prev.1[i]);
                }
            } else {
                assert(st.0[p] == prev.0[p]);
            }
        }
        assert forall|i: int| 0 <= i < st.1.len() implies (#[trigger] st.1[i]) != '\n' by {
            if s.last() != '\n' {
                assert(st.1 == prev.1.push(s.last()));
                if i < prev.1.len() {
                    assert(st.1[i] == prev.1[i]);
                }
            }
        }
    }
}

/// Trimming keeps a text free of a non-whitespace character it never had.
pub proof fn lemma_trim_keeps_free(s: Seq<char>, c: char)
    requires
        forall|i: int| 0 <= i < s.len() ==> (#[trigger] s[i]) != c,
    ensures
        forall|i: int| 0 <= i < trim_sp(s).len() ==> (#[trigger] trim_sp(s)[i]) != c,
{
    lemma_trim_start_keeps_free(s, c);
    lemma_trim_end_keeps_free(crate::text::trim_start_sp(s), c);
}

proof fn lemma_trim_start_keeps_free(s: Seq<char>, c: char)
    requires
        forall|i: int| 0 <= i < s.len() ==> (#[trigger] s[i]) != c,
    ensures
        forall|i: int|
            0 <= i < crate::text::trim_start_sp(s).len() ==> (#[trigger] crate::text::trim_start_sp(
                s,
            )[i]) != c,
    decreases s.len(),
{
    if s.len() > 0 && crate::text::is_ws_char(s[0]) {
        assert(forall|i: int|
            0 <= i < s.drop_first().len() ==> (#[trigger] s.drop_first()[i]) == s[i + 1]);
        lemma_trim_start_keeps_free(s.drop_first(), c);
        assert forall|i: int|
            0 <= i < crate::text::trim_start_sp(s).len() implies (
        #[trigger] crate::text::trim_start_sp(s)[i]) != c by {
            assert(crate::text::trim_start_sp(s)[i] == crate::text::trim_start_sp(
                s.drop_first(),
            )[i]);
        }
    }
}

proof fn lemma_trim_end_keeps_free(s: Seq<char>, c: char)
    requires
        forall|i: int| 0 <= i < s.len() ==> (#[trigger] s[i]) != c,
    ensures
        forall|i: int|
            0 <= i < crate::text::trim_end_sp(s).len() ==> (#[trigger] crate::text::trim_end_sp(
                s,
            )[i]) != c,
    decreases s.len(),
{
    if s.len() > 0 && crate::text::is_ws_char(s.last()) {
        assert(forall|i: int|
            0 <= i < s.drop_last().len() ==> (#[trigger] s.drop_last()[i]) == s[i]);
        lemma_trim_end_keeps_free(s.drop_last(), c);
        assert forall|i: int|
            0 <= i < crate::text::trim_end_sp(s).len() implies (
        #[trigger] crate::text::trim_end_sp(s)[i]) != c by {
            assert(crate::text::trim_end_sp(s)[i] == crate::text::trim_end_sp(s.drop_last())[i]);
        }
    }
}

/// Classification does not change under trimming: the tokens are the same,
/// and the opaque fallback trims either way.
pub proof fn lemma_classify_trim(x: Seq<char>)
    ensures
        classify_sp(trim_sp(x)) == classify_sp(x),
{
    crate::text::lemma_split_ws_trim(x);
    crate::text::lemma_trim_idempotent(x);
}

/// Splits the text into its raw physical lines, unclassified.
pub fn raw_lines(text: &str) -> (r: Vec<String>)
    ensures
        r.deep_view() == split_lines(text@),
{
    let chars = to_chars(text);
    let mut lines: Vec<String> = Vec::new();
    let mut cur: Vec<char> = Vec::new();
    let mut i: usize = 0;
    while i < chars.len()
        invariant
            i <= chars.len(),
            chars@ == text@,
            lines.deep_view() == line_scan(text@.take(i as int)).0,
            cur@ == line_scan(text@.take(i as int)).1,
        decreases chars.len() - i,
    {
        proof {
            assert(text@.take(i as int + 1).drop_last() =~= text@.take(i as int));
            assert(text@.take(i as int + 1).last() == text@[i as int]);
        }
        let c = chars[i];
        if c == '\n' {
            if cur.len() > 0 && cur[cur.len() - 1] == '\r' {
                cur.pop();
            }
            let ghost prev: Seq<Seq<char>> = lines.deep_view();
            let ghost curv: Seq<char> = cur@;
            lines.push(chars_to_string(&cur));
            cur = Vec::new();
            proof {
                assert(lines.deep_view() =~~= prev.push(curv));
            }
        } else {
            cur.push(c);
        }
        i = i + 1;
    }
    proof {
        assert(text@.take(chars.len() as int) =~= text@);
    }
    if cur.len() > 0 {
        let ghost prev: Seq<Seq<char>> = lines.deep_view();
        let ghost curv: Seq<char> = cur@;
        lines.push(chars_to_string(&cur));
        proof {
            assert(lines.deep_view() =~~= prev.push(curv));
        }
    }
    lines
}

} // verus!
