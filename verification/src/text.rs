//! Character-level text utilities: whitespace, trimming, tokenizing,
//! splitting on separators and on line breaks, and joining.
//!
//! Every splitting function is specified through a left-to-right scan
//! (`*_scan`) that folds one character at a time into a pair of the finished
//! pieces and the piece under construction; the executable functions walk the
//! text once and keep that pair as their loop invariant.

use vstd::prelude::*;
use vstd::string::StrSliceExecFns;

verus! {

/// The Unicode `White_Space` code points, the class that `char::is_whitespace`
/// tests; tokens of a hosts line are the maximal runs outside this class.
pub open spec fn is_ws_char(c: char) -> bool {
    let u = c as u32;
    ||| u == 0x09
    ||| u == 0x0A
    ||| u == 0x0B
    ||| u == 0x0C
    ||| u == 0x0D
    ||| u == 0x20
    ||| u == 0x85
    ||| u == 0xA0
    ||| u == 0x1680
    ||| (0x2000 <= u && u <= 0x200A)
    ||| u == 0x2028
    ||| u == 0x2029
    ||| u == 0x202F
    ||| u == 0x205F
    ||| u == 0x3000
}

pub fn is_ws(c: char) -> (r: bool)
    ensures
        r == is_ws_char(c),
{
    let u: u32 = c as u32;
    u == 0x09 || u == 0x0A || u == 0x0B || u == 0x0C || u == 0x0D || u == 0x20 || u == 0x85
        || u == 0xA0 || u == 0x1680 || (0x2000 <= u && u <= 0x200A) || u == 0x2028 || u == 0x2029
        || u == 0x202F || u == 0x205F || u == 0x3000
}

/// Copies the characters of a string slice into a vector.
pub fn to_chars(s: &str) -> (r: Vec<char>)
    ensures
        r@ == s@,
{
    let n: usize = s.unicode_len();
    let mut r: Vec<char> = Vec::new();
    let mut i: usize = 0;
    while i < n
        invariant
            i <= n,
            n == s@.len(),
            r@ == s@.take(i as int),
        decreases n - i,
    {
        let c = s.get_char(i);
        r.push(c);
        i = i + 1;
        proof {
            assert(r@ =~= s@.take(i as int));
        }
    }
    proof {
        assert(s@.take(n as int) =~= s@);
    }
    r
}

/// Relies on String::push: appends the given character to the end of the string.
#[verifier::external_body]
fn push_char(s: &mut String, c: char)
    ensures
        final(s)@ == old(s)@.push(c),
{
    s.push(c)
}

/// Appends the characters of `v` to `s`.
pub fn append_chars(s: &mut String, v: &Vec<char>)
    ensures
        final(s)@ == old(s)@ + v@,
{
    let mut i: usize = 0;
    while i < v.len()
        invariant
            i <= v.len(),
            s@ == old(s)@ + v@.take(i as int),
        decreases v.len() - i,
    {
        push_char(s, v[i]);
        i = i + 1;
        proof {
            assert(s@ =~= old(s)@ + v@.take(i as int));
        }
    }
    proof {
        assert(old(s)@ + v@.take(v.len() as int) =~= old(s)@ + v@);
    }
}

/// Builds a string out of a character vector.
pub fn chars_to_string(v: &Vec<char>) -> (r: String)
    ensures
        r@ == v@,
{
    let mut r = String::new();
    append_chars(&mut r, v);
    proof {
        assert(Seq::<char>::empty() + v@ =~= v@);
    }
    r
}

pub open spec fn trim_start_sp(s: Seq<char>) -> Seq<char>
    decreases s.len(),
{
    if s.len() > 0 && is_ws_char(s[0]) {
        trim_start_sp(s.drop_first())
    } else {
        s
    }
}

pub open spec fn trim_end_sp(s: Seq<char>) -> Seq<char>
    decreases s.len(),
{
    if s.len() > 0 && is_ws_char(s.last()) {
        trim_end_sp(s.drop_last())
    } else {
        s
    }
}

/// What `str::trim` keeps: the text without leading and trailing whitespace.
pub open spec fn trim_sp(s: Seq<char>) -> Seq<char> {
    trim_end_sp(trim_start_sp(s))
}

/// Trims leading and trailing whitespace characters.
pub fn trim_chars(v: &Vec<char>) -> (r: Vec<char>)
    ensures
        r@ == trim_sp(v@),
{
    proof {
        assert(v@.skip(0) =~= v@);
    }
    let mut a: usize = 0;
    while a < v.len() && is_ws(v[a])
        invariant
            a <= v.len(),
            trim_start_sp(v@) == trim_start_sp(v@.skip(a as int)),
        decreases v.len() - a,
    {
        proof {
            assert(v@.skip(a as int).drop_first() =~= v@.skip(a as int + 1));
        }
        a = a + 1;
    }
    proof {
        if a < v.len() {
            assert(trim_start_sp(v@.skip(a as int)) == v@.skip(a as int));
        } else {
            assert(v@.skip(a as int) =~= Seq::<char>::empty());
        }
    }
    let ghost t: Seq<char> = v@.skip(a as int);
    let mut b: usize = v.len();
    while b > a && is_ws(v[b - 1])
        invariant
            a <= b <= v.len(),
            t == v@.skip(a as int),
            trim_end_sp(t) == trim_end_sp(v@.subrange(a as int, b as int)),
        decreases b,
    {
        proof {
            assert(v@.subrange(a as int, b as int).last() == v@[b - 1]);
            assert(v@.subrange(a as int, b as int).drop_last() =~= v@.subrange(
                a as int,
                b as int - 1,
            ));
        }
        b = b - 1;
    }
    proof {
        if b > a {
            assert(trim_end_sp(v@.subrange(a as int, b as int)) == v@.subrange(a as int, b as int));
        } else {
            assert(v@.subrange(a as int, b as int) =~= Seq::<char>::empty());
        }
    }
    let mut r: Vec<char> = Vec::new();
    let mut i: usize = a;
    while i < b
        invariant
            a <= i <= b <= v.len(),
            r@ == v@.subrange(a as int, i as int),
        decreases b - i,
    {
        r.push(v[i]);
        i = i + 1;
        proof {
            assert(r@ =~= v@.subrange(a as int, i as int));
        }
    }
    r
}

/// One step of the whitespace tokenizer: a whitespace character finishes the
/// token under construction (if any), any other character extends it.
pub open spec fn ws_step(st: (Seq<Seq<char>>, Seq<char>), c: char) -> (Seq<Seq<char>>, Seq<char>) {
    if is_ws_char(c) {
        if st.1.len() > 0 {
            (st.0.push(st.1), Seq::<char>::empty())
        } else {
            st
        }
    } else {
        (st.0, st.1.push(c))
    }
}

pub open spec fn ws_scan(s: Seq<char>) -> (Seq<Seq<char>>, Seq<char>)
    decreases s.len(),
{
    if s.len() == 0 {
        (Seq::<Seq<char>>::empty(), Seq::<char>::empty())
    } else {
        ws_step(ws_scan(s.drop_last()), s.last())
    }
}

/// What `str::split_whitespace` yields: the maximal whitespace-free runs.
pub open spec fn split_ws(s: Seq<char>) -> Seq<Seq<char>> {
    let st = ws_scan(s);
    if st.1.len() > 0 {
        st.0.push(st.1)
    } else {
        st.0
    }
}

/// Splits into whitespace-separated tokens.
pub fn tokenize(v: &Vec<char>) -> (r: Vec<Vec<char>>)
    ensures
        r.deep_view() == split_ws(v@),
{
    let mut toks: Vec<Vec<char>> = Vec::new();
    let mut cur: Vec<char> = Vec::new();
    let mut i: usize = 0;
    while i < v.len()
        invariant
            i <= v.len(),
            toks.deep_view() == ws_scan(v@.take(i as int)).0,
            cur@ == ws_scan(v@.take(i as int)).1,
        decreases v.len() - i,
    {
        proof {
            assert(v@.take(i as int + 1).drop_last() =~= v@.take(i as int));
            assert(v@.take(i as int + 1).last() == v@[i as int]);
        }
        let ghost prev: Seq<Seq<char>> = toks.deep_view();
        let c = v[i];
        if is_ws(c) {
            if cur.len() > 0 {
                let ghost curv: Seq<char> = cur@;
                toks.push(cur);
                cur = Vec::new();
                proof {
                    assert(toks.deep_view() =~~= prev.push(curv));
                }
            }
        } else {
            cur.push(c);
        }
        i = i + 1;
    }
    proof {
        assert(v@.take(v.len() as int) =~= v@);
    }
    if cur.len() > 0 {
        let ghost prev: Seq<Seq<char>> = toks.deep_view();
        let ghost curv: Seq<char> = cur@;
        toks.push(cur);
        proof {
            assert(toks.deep_view() =~~= prev.push(curv));
        }
    }
    toks
}

/// One step of splitting on a separator: the separator always finishes the
/// current piece, empty pieces included.
pub open spec fn sep_step(st: (Seq<Seq<char>>, Seq<char>), c: char, sep: char) -> (
    Seq<Seq<char>>,
    Seq<char>,
) {
    if c == sep {
        (st.0.push(st.1), Seq::<char>::empty())
    } else {
        (st.0, st.1.push(c))
    }
}

pub open spec fn sep_scan(s: Seq<char>, sep: char) -> (Seq<Seq<char>>, Seq<char>)
    decreases s.len(),
{
    if s.len() == 0 {
        (Seq::<Seq<char>>::empty(), Seq::<char>::empty())
    } else {
        sep_step(sep_scan(s.drop_last(), sep), s.last(), sep)
    }
}

/// What `str::split(sep)` yields: one piece more than there are separators,
/// with empty pieces kept.
pub open spec fn split_on(s: Seq<char>, sep: char) -> Seq<Seq<char>> {
    let st = sep_scan(s, sep);
    st.0.push(st.1)
}

/// Splits on every occurrence of `sep`, keeping empty pieces.
pub fn split_on_char(v: &Vec<char>, sep: char) -> (r: Vec<Vec<char>>)
    ensures
        r.deep_view() == split_on(v@, sep),
{
    let mut parts: Vec<Vec<char>> = Vec::new();
    let mut cur: Vec<char> = Vec::new();
    let mut i: usize = 0;
    while i < v.len()
        invariant
            i <= v.len(),
            parts.deep_view() == sep_scan(v@.take(i as int), sep).0,
            cur@ == sep_scan(v@.take(i as int), sep).1,
        decreases v.len() - i,
    {
        proof {
            assert(v@.take(i as int + 1).drop_last() =~= v@.take(i as int));
            assert(v@.take(i as int + 1).last() == v@[i as int]);
        }
        let ghost prev: Seq<Seq<char>> = parts.deep_view();
        let c = v[i];
        if c == sep {
            let ghost curv: Seq<char> = cur@;
            parts.push(cur);
            cur = Vec::new();
            proof {
                assert(parts.deep_view() =~~= prev.push(curv));
            }
        } else {
            cur.push(c);
        }
        i = i + 1;
    }
    proof {
        assert(v@.take(v.len() as int) =~= v@);
    }
    let ghost prev: Seq<Seq<char>> = parts.deep_view();
    let ghost curv: Seq<char> = cur@;
    parts.push(cur);
    proof {
        assert(parts.deep_view() =~~= prev.push(curv));
    }
    parts
}

/// The pieces joined with `sep` between them.
pub open spec fn join_with(parts: Seq<Seq<char>>, sep: Seq<char>) -> Seq<char>
    decreases parts.len(),
{
    if parts.len() == 0 {
        Seq::<char>::empty()
    } else if parts.len() == 1 {
        parts[0]
    } else {
        join_with(parts.drop_last(), sep) + sep + parts.last()
    }
}

/// A carriage return left at the end of a piece by a `\r\n` break is dropped.
pub open spec fn strip_cr(s: Seq<char>) -> Seq<char> {
    if s.len() > 0 && s.last() == '\r' {
        s.drop_last()
    } else {
        s
    }
}

/// One step of splitting into lines: `\n` finishes the current line (with its
/// `\r`, if any, stripped), any other character extends it.
pub open spec fn line_step(st: (Seq<Seq<char>>, Seq<char>), c: char) -> (
    Seq<Seq<char>>,
    Seq<char>,
) {
    if c == '\n' {
        (st.0.push(strip_cr(st.1)), Seq::<char>::empty())
    } else {
        (st.0, st.1.push(c))
    }
}

pub open spec fn line_scan(s: Seq<char>) -> (Seq<Seq<char>>, Seq<char>)
    decreases s.len(),
{
    if s.len() == 0 {
        (Seq::<Seq<char>>::empty(), Seq::<char>::empty())
    } else {
        line_step(line_scan(s.drop_last()), s.last())
    }
}

/// What `str::lines` yields: pieces split at `\n` with a trailing `\r`
/// stripped, and no empty piece after a final line break.
pub open spec fn split_lines(s: Seq<char>) -> Seq<Seq<char>> {
    let st = line_scan(s);
    if st.1.len() > 0 {
        st.0.push(st.1)
    } else {
        st.0
    }
}

/// Appends the characters of `add` to `v`.
pub fn extend_chars(v: &mut Vec<char>, add: &Vec<char>)
    ensures
        final(v)@ == old(v)@ + add@,
{
    let mut i: usize = 0;
    while i < add.len()
        invariant
            i <= add.len(),
            v@ == old(v)@ + add@.take(i as int),
        decreases add.len() - i,
    {
        v.push(add[i]);
        i = i + 1;
        proof {
            assert(v@ =~= old(v)@ + add@.take(i as int));
        }
    }
    proof {
        assert(old(v)@ + add@.take(add.len() as int) =~= old(v)@ + add@);
    }
}

/// Copies `v[a..b]` into a fresh vector.
pub fn copy_range(v: &Vec<char>, a: usize, b: usize) -> (r: Vec<char>)
    requires
        a <= b <= v.len(),
    ensures
        r@ == v@.subrange(a as int, b as int),
{
    let mut r: Vec<char> = Vec::new();
    let mut i: usize = a;
    while i < b
        invariant
            a <= i <= b <= v.len(),
            r@ == v@.subrange(a as int, i as int),
        decreases b - i,
    {
        r.push(v[i]);
        i = i + 1;
        proof {
            assert(r@ =~= v@.subrange(a as int, i as int));
        }
    }
    r
}

/// String equality, stated over the character sequences.
pub fn string_eq(a: &String, b: &String) -> (r: bool)
    ensures
        r == (a@ == b@),
{
    a.eq(b)
}

/// No character of the text is whitespace.
pub open spec fn ws_free(s: Seq<char>) -> bool {
    forall|i: int| 0 <= i < s.len() ==> !is_ws_char(#[trigger] s[i])
}

pub open spec fn ws_scan_from(st: (Seq<Seq<char>>, Seq<char>), s: Seq<char>) -> (
    Seq<Seq<char>>,
    Seq<char>,
)
    decreases s.len(),
{
    if s.len() == 0 {
        st
    } else {
        ws_step(ws_scan_from(st, s.drop_last()), s.last())
    }
}

/// The tokenizer scan is a fold, so it composes over concatenation.
pub proof fn lemma_ws_scan_app(a: Seq<char>, b: Seq<char>)
    ensures
        ws_scan(a + b) == ws_scan_from(ws_scan(a), b),
    decreases b.len(),
{
    if b.len() == 0 {
        assert(a + b =~= a);
    } else {
        lemma_ws_scan_app(a, b.drop_last());
        assert((a + b).drop_last() =~= a + b.drop_last());
        assert((a + b).last() == b.last());
    }
}

/// Every token the scan has produced, and the token under construction, is
/// whitespace-free, and produced tokens are non-empty.
pub proof fn lemma_ws_scan_tokens(s: Seq<char>)
    ensures
        ws_free(ws_scan(s).1),
        forall|j: int|
            0 <= j < ws_scan(s).0.len() ==> (#[trigger] ws_scan(s).0[j]).len() > 0 && ws_free(
                ws_scan(s).0[j],
            ),
    decreases s.len(),
{
    if s.len() > 0 {
        lemma_ws_scan_tokens(s.drop_last());
    }
}

/// Every token of the text is non-empty and whitespace-free.
pub proof fn lemma_split_ws_tokens(s: Seq<char>)
    ensures
        forall|j: int|
            0 <= j < split_ws(s).len() ==> (#[trigger] split_ws(s)[j]).len() > 0 && ws_free(
                split_ws(s)[j],
            ),
{
    lemma_ws_scan_tokens(s);
}

/// Scanning a whitespace-free run only extends the token under construction.
pub proof fn lemma_ws_scan_from_token(st: (Seq<Seq<char>>, Seq<char>), t: Seq<char>)
    requires
        ws_free(t),
    ensures
        ws_scan_from(st, t).0 == st.0,
        ws_scan_from(st, t).1 == st.1 + t,
    decreases t.len(),
{
    if t.len() == 0 {
        assert(st.1 + t =~= st.1);
    } else {
        assert(ws_free(t.drop_last()));
        lemma_ws_scan_from_token(st, t.drop_last());
        assert(!is_ws_char(t.last()));
        assert((st.1 + t.drop_last()).push(t.last()) =~= st.1 + t);
    }
}

/// A single non-empty whitespace-free run is its own token list.
pub proof fn lemma_split_ws_single(t: Seq<char>)
    requires
        t.len() > 0,
        ws_free(t),
    ensures
        split_ws(t) == seq![t],
{
    assert(t =~= Seq::<char>::empty() + t);
    lemma_ws_scan_app(Seq::<char>::empty(), t);
    lemma_ws_scan_from_token(ws_scan(Seq::<char>::empty()), t);
    assert(Seq::<char>::empty() + t =~= t);
    assert(split_ws(t) =~= seq![t]);
}

/// Tokenizing non-empty whitespace-free pieces joined by single spaces gives
/// the pieces back.
pub proof fn lemma_split_ws_join(parts: Seq<Seq<char>>)
    requires
        parts.len() >= 1,
        forall|j: int| 0 <= j < parts.len() ==> (#[trigger] parts[j]).len() > 0 && ws_free(
            parts[j],
        ),
    ensures
        ws_scan(join_with(parts, seq![' '])) == (parts.drop_last(), parts.last()),
        split_ws(join_with(parts, seq![' '])) == parts,
    decreases parts.len(),
{
    if parts.len() == 1 {
        assert(join_with(parts, seq![' ']) == parts[0]);
        assert(parts[0] =~= Seq::<char>::empty() + parts[0]);
        lemma_ws_scan_app(Seq::<char>::empty(), parts[0]);
        lemma_ws_scan_from_token(ws_scan(Seq::<char>::empty()), parts[0]);
        assert(Seq::<char>::empty() + parts[0] =~= parts[0]);
        assert(ws_scan(join_with(parts, seq![' '])).0 =~= parts.drop_last());
        assert(split_ws(join_with(parts, seq![' '])) =~= parts);
    } else {
        let pp = parts.drop_last();
        lemma_split_ws_join(pp);
        let jp = join_with(pp, seq![' ']);
        let whole = join_with(parts, seq![' ']);
        assert(whole == jp + seq![' '] + parts.last());
        assert(jp + seq![' '] + parts.last() =~= (jp + seq![' ']) + parts.last());
        lemma_ws_scan_app(jp, seq![' ']);
        assert(seq![' '].drop_last() =~= Seq::<char>::empty());
        assert(is_ws_char(' '));
        assert(pp.last().len() > 0);
        assert(ws_scan(jp) == (pp.drop_last(), pp.last()));
        assert(seq![' '].last() == ' ');
        assert(ws_scan_from(ws_scan(jp), seq![' '].drop_last()) == ws_scan(jp));
        assert(ws_scan_from(ws_scan(jp), seq![' ']) == ws_step(ws_scan(jp), ' '));
        assert(ws_step(ws_scan(jp), ' ') == (
            pp.drop_last().push(pp.last()),
            Seq::<char>::empty(),
        ));
        assert(ws_scan(jp + seq![' ']) == (pp.drop_last().push(pp.last()), Seq::<char>::empty()));
        assert(pp.drop_last().push(pp.last()) =~= pp);
        lemma_ws_scan_app(jp + seq![' '], parts.last());
        lemma_ws_scan_from_token(ws_scan(jp + seq![' ']), parts.last());
        assert(Seq::<char>::empty() + parts.last() =~= parts.last());
        assert(ws_scan(whole) == (pp, parts.last()));
        assert(split_ws(whole) =~= parts);
    }
}

/// Dropping a leading whitespace character leaves the token list unchanged.
pub proof fn lemma_split_ws_drop_leading(s: Seq<char>)
    requires
        s.len() > 0,
        is_ws_char(s[0]),
    ensures
        ws_scan(s) == ws_scan(s.drop_first()),
{
    assert(s =~= seq![s[0]] + s.drop_first());
    lemma_ws_scan_app(seq![s[0]], s.drop_first());
    assert(seq![s[0]].drop_last() =~= Seq::<char>::empty());
    assert(ws_scan(seq![s[0]]) == ws_scan(Seq::<char>::empty()));
    assert(s.drop_first() =~= Seq::<char>::empty() + s.drop_first());
    lemma_ws_scan_app(Seq::<char>::empty(), s.drop_first());
}

/// The token list of a text is that of its trimmed form.
pub proof fn lemma_split_ws_trim(s: Seq<char>)
    ensures
        split_ws(trim_sp(s)) == split_ws(s),
        ws_scan(trim_start_sp(s)) == ws_scan(s),
{
    lemma_ws_scan_trim_start(s);
    lemma_split_ws_trim_end(trim_start_sp(s));
}

proof fn lemma_ws_scan_trim_start(s: Seq<char>)
    ensures
        ws_scan(trim_start_sp(s)) == ws_scan(s),
    decreases s.len(),
{
    if s.len() > 0 && is_ws_char(s[0]) {
        lemma_split_ws_drop_leading(s);
        lemma_ws_scan_trim_start(s.drop_first());
    }
}

proof fn lemma_split_ws_trim_end(s: Seq<char>)
    ensures
        split_ws(trim_end_sp(s)) == split_ws(s),
    decreases s.len(),
{
    if s.len() > 0 && is_ws_char(s.last()) {
        lemma_split_ws_trim_end(s.drop_last());
    }
}

/// A trimmed text does not change under another trim.
pub proof fn lemma_trim_idempotent(s: Seq<char>)
    ensures
        trim_sp(trim_sp(s)) == trim_sp(s),
        trim_sp(s).len() > 0 ==> !is_ws_char(trim_sp(s)[0]) && !is_ws_char(trim_sp(s).last()),
{
    lemma_trim_start_first(s);
    lemma_trim_end_props(trim_start_sp(s));
    let t = trim_sp(s);
    if t.len() > 0 {
        assert(trim_start_sp(t) == t);
        assert(trim_end_sp(t) == t);
    } else {
        assert(trim_start_sp(t) == t);
        assert(trim_end_sp(t) == t);
    }
}

proof fn lemma_trim_start_first(s: Seq<char>)
    ensures
        trim_start_sp(s).len() > 0 ==> !is_ws_char(trim_start_sp(s)[0]),
    decreases s.len(),
{
    if s.len() > 0 && is_ws_char(s[0]) {
        lemma_trim_start_first(s.drop_first());
    }
}

proof fn lemma_trim_end_props(s: Seq<char>)
    ensures
        trim_end_sp(s).len() > 0 ==> !is_ws_char(trim_end_sp(s).last()),
        trim_end_sp(s).len() > 0 ==> trim_end_sp(s)[0] == s[0],
        s.len() > 0 && !is_ws_char(s[0]) && trim_end_sp(s).len() == 0 ==> false,
    decreases s.len(),
{
    if s.len() > 0 && is_ws_char(s.last()) {
        lemma_trim_end_props(s.drop_last());
    }
}

/// A whitespace-free text is already trimmed.
pub proof fn lemma_trim_ws_free(s: Seq<char>)
    requires
        ws_free(s),
    ensures
        trim_sp(s) == s,
{
    assert(trim_start_sp(s) == s);
    assert(trim_end_sp(s) == s);
}

pub open spec fn line_scan_from(st: (Seq<Seq<char>>, Seq<char>), s: Seq<char>) -> (
    Seq<Seq<char>>,
    Seq<char>,
)
    decreases s.len(),
{
    if s.len() == 0 {
        st
    } else {
        line_step(line_scan_from(st, s.drop_last()), s.last())
    }
}

/// The line scan is a fold, so it composes over concatenation.
pub proof fn lemma_line_scan_app(a: Seq<char>, b: Seq<char>)
    ensures
        line_scan(a + b) == line_scan_from(line_scan(a), b),
    decreases b.len(),
{
    if b.len() == 0 {
        assert(a + b =~= a);
    } else {
        lemma_line_scan_app(a, b.drop_last());
        assert((a + b).drop_last() =~= a + b.drop_last());
        assert((a + b).last() == b.last());
    }
}

/// Scanning a break-free run only extends the line under construction.
pub proof fn lemma_line_scan_from_row(st: (Seq<Seq<char>>, Seq<char>), r: Seq<char>)
    requires
        forall|i: int| 0 <= i < r.len() ==> (#[trigger] r[i]) != '\n',
    ensures
        line_scan_from(st, r).0 == st.0,
        line_scan_from(st, r).1 == st.1 + r,
    decreases r.len(),
{
    if r.len() == 0 {
        assert(st.1 + r =~= st.1);
    } else {
        lemma_line_scan_from_row(st, r.drop_last());
        assert(r.last() != '\n');
        assert((st.1 + r.drop_last()).push(r.last()) =~= st.1 + r);
    }
}

/// Every char of a joined text comes from a piece or from the separator.
pub proof fn lemma_join_with_chars(parts: Seq<Seq<char>>, sep: Seq<char>, i: int)
    requires
        0 <= i < join_with(parts, sep).len(),
    ensures
        sep.contains(join_with(parts, sep)[i]) || exists|p: int, q: int|
            0 <= p < parts.len() && 0 <= q < parts[p].len() && (#[trigger] parts[p][q])
                == join_with(parts, sep)[i],
    decreases parts.len(),
{
    if parts.len() == 1 {
        assert(parts[0][i] == join_with(parts, sep)[i]);
    } else if parts.len() > 1 {
        let jp = join_with(parts.drop_last(), sep);
        if i < jp.len() {
            lemma_join_with_chars(parts.drop_last(), sep, i);
            if !sep.contains(join_with(parts, sep)[i]) {
                let (p, q) = choose|p: int, q: int|
                    0 <= p < parts.drop_last().len() && 0 <= q < parts.drop_last()[p].len() && (
                    #[trigger] parts.drop_last()[p][q]) == jp[i];
                assert(parts[p][q] == join_with(parts, sep)[i]);
            }
        } else if i < jp.len() + sep.len() {
            assert(sep[i - jp.len()] == join_with(parts, sep)[i]);
        } else {
            let q = i - jp.len() - sep.len();
            assert(parts[parts.len() - 1][q] == join_with(parts, sep)[i]);
        }
    }
}

/// Every char of the text that is not the separator sits in some piece.
pub proof fn lemma_split_on_chars(s: Seq<char>, sep: char, i: int)
    requires
        0 <= i < s.len(),
        s[i] != sep,
    ensures
        exists|p: int, q: int|
            0 <= p < split_on(s, sep).len() && 0 <= q < split_on(s, sep)[p].len() && (
            #[trigger] split_on(s, sep)[p][q]) == s[i],
    decreases s.len(),
{
    let parts = split_on(s, sep);
    if i == s.len() - 1 {
        // the last char is not the separator, so it ends the final piece
        let st = sep_scan(s, sep);
        let pv = sep_scan(s.drop_last(), sep);
        assert(st == (pv.0, pv.1.push(s.last())));
        assert(parts[parts.len() - 1][st.1.len() - 1] == s[i]);
    } else {
        lemma_split_on_chars(s.drop_last(), sep, i);
        let prev = split_on(s.drop_last(), sep);
        let (p, q) = choose|p: int, q: int|
            0 <= p < prev.len() && 0 <= q < prev[p].len() && (#[trigger] prev[p][q]) == s.drop_last()[i];
        let pv = sep_scan(s.drop_last(), sep);
        if s.last() == sep {
            // all previous pieces survive, shifted within a longer list
            assert(split_on(s, sep) =~= pv.0.push(pv.1).push(Seq::<char>::empty()));
            assert(prev =~= pv.0.push(pv.1));
            assert(parts[p][q] == s[i]);
        } else {
            assert(split_on(s, sep) =~= pv.0.push(pv.1.push(s.last())));
            assert(prev =~= pv.0.push(pv.1));
            if p < prev.len() - 1 {
                assert(parts[p][q] == s[i]);
            } else {
                assert(parts[p][q] == s[i]);
            }
        }
    }
}

} // verus!
