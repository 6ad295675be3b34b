//! The text renderer: a typed-line sequence becomes text again, with runs of
//! blank lines collapsed, a single trailing blank line ensured, and the line
//! ending chosen by a configuration flag.

use vstd::prelude::*;
use crate::model::{Line, LineV};
use crate::text::{append_chars, copy_range, extend_chars, join_with, to_chars};

verus! {

/// The rendering of one entry line: an optional `#`, the IP, then the host
/// names, joined by single spaces.
pub open spec fn render_valid(ip: Seq<char>, hosts: Seq<Seq<char>>, enabled: bool) -> Seq<char> {
    let parts = if enabled {
        seq![ip] + hosts
    } else {
        seq![seq!['#'], ip] + hosts
    };
    join_with(parts, seq![' '])
}

/// The rendering of one typed line (without its line ending).
pub open spec fn render_line(l: LineV) -> Seq<char> {
    match l {
        LineV::Valid { ip, hosts, enabled } => render_valid(ip, hosts, enabled),
        LineV::Empty => Seq::<char>::empty(),
        LineV::Other(s) => s,
        LineV::Group(n) => seq!['#', '['] + n + seq![']'],
    }
}

/// One step of the renderer: a blank line is dropped when the previous output
/// line was already blank, every other line is rendered and kept.
pub open spec fn render_step(st: (Seq<Seq<char>>, bool), l: LineV) -> (Seq<Seq<char>>, bool) {
    match l {
        LineV::Empty => (
            if st.1 {
                st.0
            } else {
                st.0.push(Seq::<char>::empty())
            },
            true,
        ),
        _ => (st.0.push(render_line(l)), false),
    }
}

pub open spec fn render_scan(lines: Seq<LineV>, init_pre: bool) -> (Seq<Seq<char>>, bool)
    decreases lines.len(),
{
    if lines.len() == 0 {
        (Seq::<Seq<char>>::empty(), init_pre)
    } else {
        render_step(render_scan(lines.drop_last(), init_pre), lines.last())
    }
}

/// The output rows: every line rendered, with every run of blank lines
/// collapsed to a single blank row, and one final blank row ensured.
pub open spec fn rendered_rows(lines: Seq<LineV>) -> Seq<Seq<char>> {
    let st = render_scan(lines, false);
    if st.1 {
        st.0
    } else {
        st.0.push(Seq::<char>::empty())
    }
}

pub open spec fn eol_sp(windows: bool) -> Seq<char> {
    if windows {
        seq!['\r', '\n']
    } else {
        seq!['\n']
    }
}

/// The whole rendered text: the output rows joined by the line ending.
pub open spec fn render_sp(lines: Seq<LineV>, windows: bool) -> Seq<char> {
    join_with(rendered_rows(lines), eol_sp(windows))
}

/// Renders one typed line into its characters.
fn render_one_line(l: &Line) -> (r: Vec<char>)
    ensures
        r@ == render_line(l.deep_view()),
{
    match l {
        Line::Valid { ip, hosts, enabled } => {
            let mut parts: Vec<Vec<char>> = Vec::new();
            if !*enabled {
                let mut h: Vec<char> = Vec::new();
                h.push('#');
                parts.push(h);
            }
            parts.push(to_chars(ip.as_str()));
            let mut k: usize = 0;
            let ghost base: Seq<Seq<char>> = if *enabled {
                seq![ip@]
            } else {
                seq![seq!['#'], ip@]
            };
            proof {
                assert(parts.deep_view() =~~= base + hosts.deep_view().take(0));
            }
            while k < hosts.len()
                invariant
                    k <= hosts.len(),
                    base == if *enabled {
                        seq![ip@]
                    } else {
                        seq![seq!['#'], ip@]
                    },
                    parts.deep_view() == base + hosts.deep_view().take(k as int),
                decreases hosts.len() - k,
            {
                let ghost prev: Seq<Seq<char>> = parts.deep_view();
                parts.push(to_chars(hosts[k].as_str()));
                k = k + 1;
                proof {
                    assert(hosts.deep_view()[k - 1] == hosts@[k - 1]@);
                    assert(parts.deep_view() =~~= prev.push(hosts@[k - 1]@));
                    assert(prev.push(hosts@[k - 1]@) =~~= base + hosts.deep_view().take(k as int));
                }
            }
            proof {
                assert(base + hosts.deep_view().take(hosts.len() as int) =~~= base
                    + hosts.deep_view());
            }
            let sep: Vec<char> = vec![' '];
            proof {
                assert(sep@ =~= seq![' ']);
            }
            join_chars(&parts, &sep)
        },
        Line::Empty => Vec::new(),
        Line::Other(s) => to_chars(s.as_str()),
        Line::Group(n) => {
            let mut r: Vec<char> = Vec::new();
            r.push('#');
            r.push('[');
            let nv = to_chars(n.as_str());
            extend_chars(&mut r, &nv);
            r.push(']');
            proof {
                assert(r@ =~= seq!['#', '['] + n@ + seq![']']);
            }
            r
        },
    }
}

/// Joins character-vector pieces with a separator.
pub(crate) fn join_chars(parts: &Vec<Vec<char>>, sep: &Vec<char>) -> (r: Vec<char>)
    ensures
        r@ == join_with(parts.deep_view(), sep@),
{
    if parts.len() == 0 {
        proof {
            assert(parts.deep_view().len() == 0);
        }
        return Vec::new();
    }
    let mut r = copy_range(&parts[0], 0, parts[0].len());
    proof {
        assert(parts.deep_view()[0] =~= parts@[0]@);
        assert(r@ =~= parts@[0]@);
        assert(parts.deep_view().take(1).len() == 1);
        assert(parts.deep_view().take(1)[0] == parts.deep_view()[0]);
        assert(r@ == join_with(parts.deep_view().take(1), sep@));
    }
    let mut k: usize = 1;
    while k < parts.len()
        invariant
            1 <= k <= parts.len(),
            parts.deep_view().len() == parts@.len(),
            r@ == join_with(parts.deep_view().take(k as int), sep@),
        decreases parts.len() - k,
    {
        extend_chars(&mut r, sep);
        extend_chars(&mut r, &parts[k]);
        k = k + 1;
        proof {
            assert(parts.deep_view()[k - 1] =~= parts@[k - 1]@);
            assert(parts.deep_view().take(k as int).drop_last() =~= parts.deep_view().take(
                k as int - 1,
            ));
            assert(parts.deep_view().take(k as int).last() == parts.deep_view()[k - 1]);
            assert(r@ =~= join_with(parts.deep_view().take(k as int - 1), sep@) + sep@
                + parts.deep_view()[k - 1]);
        }
    }
    proof {
        assert(parts.deep_view().take(parts.len() as int) =~~= parts.deep_view());
    }
    r
}

/// Joins the output rows into the final text with the chosen line ending.
fn join_rows(rows: &Vec<Vec<char>>, windows: bool) -> (r: String)
    ensures
        r@ == join_with(rows.deep_view(), eol_sp(windows)),
{
    let joined = join_chars(rows, &eol_chars(windows));
    crate::text::chars_to_string(&joined)
}

/// The line-ending characters of the chosen mode.
fn eol_chars(windows: bool) -> (r: Vec<char>)
    ensures
        r@ == eol_sp(windows),
{
    if windows {
        let r: Vec<char> = vec!['\r', '\n'];
        proof {
            assert(r@ =~= seq!['\r', '\n']);
        }
        r
    } else {
        let r: Vec<char> = vec!['\n'];
        proof {
            assert(r@ =~= seq!['\n']);
        }
        r
    }
}

/// Serializes a typed-line sequence back to text: consecutive blank lines
/// collapse to one, a single trailing blank line is ensured, and lines are
/// joined with `\r\n` in the Windows mode and `\n` otherwise.
pub fn lines_to_text(lines: &Vec<Line>, windows: bool) -> (r: String)
    ensures
        r@ == render_sp(lines.deep_view(), windows),
{
    let ghost lv: Seq<LineV> = lines.deep_view();
    let mut rows: Vec<Vec<char>> = Vec::new();
    let mut pre_empty: bool = false;
    let ghost init: bool = false;
    proof {
        assert(lv.len() == lines@.len());
    }
    let mut i: usize = 0;
    while i < lines.len()
        invariant
            i <= lines.len(),
            lv == lines.deep_view(),
            lv.len() == lines@.len(),
            (rows.deep_view(), pre_empty) == render_scan(lv.take(i as int), init),
        decreases lines.len() - i,
    {
        proof {
            assert(lv.take(i as int + 1).drop_last() =~= lv.take(i as int));
            assert(lv.take(i as int + 1).last() == lv[i as int]);
            assert(lv[i as int] == lines@[i as int].deep_view());
        }
        let ghost prev: Seq<Seq<char>> = rows.deep_view();
        match &lines[i] {
            Line::Empty => {
                if !pre_empty {
                    rows.push(Vec::new());
                    proof {
                        assert(rows.deep_view() =~~= prev.push(Seq::<char>::empty()));
                    }
                }
                pre_empty = true;
            },
            _ => {
                let row = render_one_line(&lines[i]);
                let ghost rowv: Seq<char> = row@;
                rows.push(row);
                pre_empty = false;
                proof {
                    assert(rows.deep_view() =~~= prev.push(rowv));
                }
            },
        }
        i = i + 1;
    }
    proof {
        assert(lv.take(lines.len() as int) =~= lv);
    }
    if !pre_empty {
        let ghost prev: Seq<Seq<char>> = rows.deep_view();
        rows.push(Vec::new());
        proof {
            assert(rows.deep_view() =~~= prev.push(Seq::<char>::empty()));
        }
    }
    join_rows(&rows, windows)
}

} // verus!
