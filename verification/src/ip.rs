//! IPv4/IPv6 address syntax validation.
//!
//! The grammar is the standard textual form: an IPv4 address is four
//! dot-separated decimal octets (no leading zeros, each at most 255); an IPv6
//! address is colon-separated groups of one to four hex digits, eight groups
//! in full form, or fewer around a single `::` (which stands for at least one
//! zero group), with an optional embedded IPv4 address as the last two groups.

use vstd::prelude::*;
use crate::text::{copy_range, sep_scan, split_on, split_on_char, to_chars};

verus! {

pub open spec fn is_digit_char(c: char) -> bool {
    0x30 <= c as u32 && c as u32 <= 0x39
}

pub open spec fn digit_val(c: char) -> int {
    c as u32 - 0x30
}

/// The number a run of decimal digits denotes.
pub open spec fn dec_val(s: Seq<char>) -> int
    decreases s.len(),
{
    if s.len() == 0 {
        0
    } else {
        dec_val(s.drop_last()) * 10 + digit_val(s.last())
    }
}

pub open spec fn pow10(n: nat) -> int
    decreases n,
{
    if n == 0 {
        1
    } else {
        10 * pow10((n - 1) as nat)
    }
}

proof fn lemma_dec_val_bound(s: Seq<char>)
    requires
        forall|i: int| 0 <= i < s.len() ==> is_digit_char(#[trigger] s[i]),
    ensures
        0 <= dec_val(s) < pow10(s.len()),
    decreases s.len(),
{
    if s.len() > 0 {
        lemma_dec_val_bound(s.drop_last());
    }
}

/// A decimal octet: one to three digits, no leading zero, value at most 255.
pub open spec fn is_dec_octet(s: Seq<char>) -> bool {
    &&& 1 <= s.len() <= 3
    &&& (forall|i: int| 0 <= i < s.len() ==> is_digit_char(#[trigger] s[i]))
    &&& (s.len() > 1 ==> s[0] != '0')
    &&& dec_val(s) <= 255
}

/// Four dot-separated decimal octets.
pub open spec fn is_ipv4(s: Seq<char>) -> bool {
    let parts = split_on(s, '.');
    parts.len() == 4 && (forall|i: int| 0 <= i < 4 ==> is_dec_octet(#[trigger] parts[i]))
}

pub open spec fn is_hex_char(c: char) -> bool {
    let u = c as u32;
    is_digit_char(c) || (0x61 <= u && u <= 0x66) || (0x41 <= u && u <= 0x46)
}

/// An IPv6 group: one to four hex digits.
pub open spec fn is_h16(s: Seq<char>) -> bool {
    1 <= s.len() <= 4 && (forall|i: int| 0 <= i < s.len() ==> is_hex_char(#[trigger] s[i]))
}

/// A double colon starts at position `i`.
pub open spec fn dc_at(s: Seq<char>, i: int) -> bool {
    0 <= i && i + 1 < s.len() && s[i] == ':' && s[i + 1] == ':'
}

pub open spec fn has_dc(s: Seq<char>) -> bool {
    exists|i: int| dc_at(s, i)
}

/// The part before the `::`: empty, or colon-separated hex groups.
pub open spec fn head_ok(head: Seq<char>) -> bool {
    head.len() == 0 || (forall|i: int|
        0 <= i < split_on(head, ':').len() ==> is_h16(#[trigger] split_on(head, ':')[i]))
}

pub open spec fn head_count(head: Seq<char>) -> int {
    if head.len() == 0 {
        0
    } else {
        split_on(head, ':').len() as int
    }
}

/// The part after the `::`: empty, or colon-separated hex groups whose last
/// piece may instead be an embedded IPv4 address.
pub open spec fn tail_ok(tail: Seq<char>) -> bool {
    tail.len() == 0 || {
        let parts = split_on(tail, ':');
        &&& (forall|i: int| 0 <= i < parts.len() - 1 ==> is_h16(#[trigger] parts[i]))
        &&& (is_h16(parts.last()) || is_ipv4(parts.last()))
    }
}

/// Groups after the `::`, an embedded IPv4 address counting as two.
pub open spec fn tail_count(tail: Seq<char>) -> int {
    if tail.len() == 0 {
        0
    } else {
        let parts = split_on(tail, ':');
        parts.len() + if is_ipv4(parts.last()) {
            1int
        } else {
            0int
        }
    }
}

/// A compressed IPv6 form: the `::` stands for at least one zero group, so
/// head and tail together carry at most seven.
pub open spec fn ipv6_dc_ok(head: Seq<char>, tail: Seq<char>) -> bool {
    &&& !has_dc(tail)
    &&& head_ok(head)
    &&& tail_ok(tail)
    &&& head_count(head) + tail_count(tail) <= 7
}

pub open spec fn is_ipv6(s: Seq<char>) -> bool {
    if has_dc(s) {
        exists|i: int|
            {
                &&& #[trigger] dc_at(s, i)
                &&& (forall|j: int| 0 <= j < i ==> !dc_at(s, j))
                &&& ipv6_dc_ok(s.take(i), s.skip(i + 2))
            }
    } else {
        let parts = split_on(s, ':');
        ||| (parts.len() == 8 && (forall|i: int| 0 <= i < 8 ==> is_h16(#[trigger] parts[i])))
        ||| (parts.len() == 7 && (forall|i: int| 0 <= i < 6 ==> is_h16(#[trigger] parts[i]))
            && is_ipv4(parts[6]))
    }
}

/// Standard IPv4 or IPv6 address syntax.
pub open spec fn is_ip_sp(s: Seq<char>) -> bool {
    is_ipv4(s) || is_ipv6(s)
}

fn is_dec_octet_chars(p: &Vec<char>) -> (r: bool)
    ensures
        r == is_dec_octet(p@),
{
    if p.len() < 1 || p.len() > 3 {
        return false;
    }
    let mut i: usize = 0;
    let mut val: u32 = 0;
    while i < p.len()
        invariant
            0 <= i <= p.len() <= 3,
            forall|j: int| 0 <= j < i ==> is_digit_char(#[trigger] p@[j]),
            val == dec_val(p@.take(i as int)),
        decreases p.len() - i,
    {
        let u: u32 = p[i] as u32;
        if u < 0x30 || u > 0x39 {
            return false;
        }
        proof {
            assert(p@.take(i as int + 1).drop_last() =~= p@.take(i as int));
            assert(p@.take(i as int + 1).last() == p@[i as int]);
            lemma_dec_val_bound(p@.take(i as int));
            assert(pow10(1) == 10 * pow10(0));
            assert(pow10(2) == 10 * pow10(1));
            assert(pow10(3) == 10 * pow10(2));
        }
        val = val * 10 + (u - 0x30);
        i = i + 1;
    }
    proof {
        assert(p@.take(p.len() as int) =~= p@);
    }
    if p.len() > 1 && p[0] == '0' {
        return false;
    }
    val <= 255
}

fn is_h16_chars(p: &Vec<char>) -> (r: bool)
    ensures
        r == is_h16(p@),
{
    if p.len() < 1 || p.len() > 4 {
        return false;
    }
    let mut i: usize = 0;
    while i < p.len()
        invariant
            0 <= i <= p.len(),
            forall|j: int| 0 <= j < i ==> is_hex_char(#[trigger] p@[j]),
        decreases p.len() - i,
    {
        let u: u32 = p[i] as u32;
        if !(0x30 <= u && u <= 0x39) && !(0x61 <= u && u <= 0x66) && !(0x41 <= u && u <= 0x46) {
            return false;
        }
        i = i + 1;
    }
    true
}

fn is_ipv4_chars(v: &Vec<char>) -> (r: bool)
    ensures
        r == is_ipv4(v@),
{
    let parts = split_on_char(v, '.');
    if parts.len() != 4 {
        return false;
    }
    let mut i: usize = 0;
    while i < 4
        invariant
            0 <= i <= 4,
            parts.len() == 4,
            parts.deep_view() == split_on(v@, '.'),
            forall|j: int| 0 <= j < i ==> is_dec_octet(#[trigger] split_on(v@, '.')[j]),
        decreases 4 - i,
    {
        let ok = is_dec_octet_chars(&parts[i]);
        proof {
            assert(parts.deep_view()[i as int] =~= parts@[i as int]@);
        }
        if !ok {
            return false;
        }
        i = i + 1;
    }
    true
}

/// Checks the piece list before the `::` and counts its groups.
fn head_info(head: &Vec<char>) -> (r: (bool, usize))
    ensures
        r.0 == head_ok(head@),
        r.0 ==> r.1 == head_count(head@),
{
    if head.len() == 0 {
        return (true, 0);
    }
    let parts = split_on_char(head, ':');
    let mut i: usize = 0;
    while i < parts.len()
        invariant
            0 <= i <= parts.len(),
            parts.deep_view() == split_on(head@, ':'),
            head@.len() > 0,
            forall|j: int| 0 <= j < i ==> is_h16(#[trigger] split_on(head@, ':')[j]),
        decreases parts.len() - i,
    {
        let ok = is_h16_chars(&parts[i]);
        proof {
            assert(parts.deep_view()[i as int] =~= parts@[i as int]@);
        }
        if !ok {
            return (false, 0);
        }
        i = i + 1;
    }
    (true, parts.len())
}

/// Checks the piece list after the `::` and counts its groups, an embedded
/// IPv4 address counting as two; the count is capped just above the largest
/// count a valid address can carry.
fn tail_info(tail: &Vec<char>) -> (r: (bool, usize))
    ensures
        r.0 == tail_ok(tail@),
        r.0 && r.1 <= 7 ==> r.1 == tail_count(tail@),
        r.0 && r.1 > 7 ==> tail_count(tail@) > 7,
{
    if tail.len() == 0 {
        return (true, 0);
    }
    let parts = split_on_char(tail, ':');
    proof {
        assert(parts.deep_view().len() == parts@.len());
        assert(split_on(tail@, ':').len() >= 1);
    }
    let mut i: usize = 0;
    while i + 1 < parts.len()
        invariant
            0 <= i < parts.len(),
            parts.deep_view() == split_on(tail@, ':'),
            tail@.len() > 0,
            forall|j: int| 0 <= j < i ==> is_h16(#[trigger] split_on(tail@, ':')[j]),
        decreases parts.len() - i,
    {
        let ok = is_h16_chars(&parts[i]);
        proof {
            assert(parts.deep_view()[i as int] =~= parts@[i as int]@);
        }
        if !ok {
            return (false, 0);
        }
        i = i + 1;
    }
    let last_ix = parts.len() - 1;
    let last_h16 = is_h16_chars(&parts[last_ix]);
    let last_v4 = is_ipv4_chars(&parts[last_ix]);
    proof {
        assert(parts.deep_view()[last_ix as int] =~= parts@[last_ix as int]@);
        assert(split_on(tail@, ':').last() == split_on(tail@, ':')[last_ix as int]);
    }
    if !(last_h16 || last_v4) {
        return (false, 0);
    }
    let base: usize = parts.len();
    let c: usize = if base >= 8 {
        8
    } else if last_v4 {
        base + 1
    } else {
        base
    };
    (true, c)
}

#[verifier::rlimit(60)]
fn is_ipv6_chars(v: &Vec<char>) -> (r: bool)
    ensures
        r == is_ipv6(v@),
{
    let n: usize = v.len();
    // find the first double colon
    let mut i: usize = 0;
    let mut found: bool = false;
    if n >= 2 {
        while i < n - 1
            invariant
                n >= 2,
                0 <= i <= n - 1,
                n == v@.len(),
                forall|j: int| 0 <= j < i ==> !dc_at(v@, j),
                found ==> dc_at(v@, i as int),
            ensures
                forall|j: int| 0 <= j < i ==> !dc_at(v@, j),
                found ==> dc_at(v@, i as int),
                !found ==> i == n - 1,
            decreases n - i,
        {
            if v[i] == ':' && v[i + 1] == ':' {
                found = true;
                break ;
            }
            i = i + 1;
        }
    }
    if !found {
        proof {
            assert(forall|j: int| dc_at(v@, j) ==> 0 <= j && j + 1 < n);
            assert(!has_dc(v@));
        }
        let parts = split_on_char(v, ':');
        if parts.len() == 8 {
            let mut k: usize = 0;
            while k < 8
                invariant
                    0 <= k <= 8,
                    parts.len() == 8,
                    parts.deep_view() == split_on(v@, ':'),
                    !has_dc(v@),
                    forall|j: int| 0 <= j < k ==> is_h16(#[trigger] split_on(v@, ':')[j]),
                decreases 8 - k,
            {
                let ok = is_h16_chars(&parts[k]);
                proof {
                    assert(parts.deep_view()[k as int] =~= parts@[k as int]@);
                }
                if !ok {
                    return false;
                }
                k = k + 1;
            }
            true
        } else if parts.len() == 7 {
            let mut k: usize = 0;
            while k < 6
                invariant
                    0 <= k <= 6,
                    parts.len() == 7,
                    parts.deep_view() == split_on(v@, ':'),
                    !has_dc(v@),
                    forall|j: int| 0 <= j < k ==> is_h16(#[trigger] split_on(v@, ':')[j]),
                decreases 6 - k,
            {
                let ok = is_h16_chars(&parts[k]);
                proof {
                    assert(parts.deep_view()[k as int] =~= parts@[k as int]@);
                }
                if !ok {
                    return false;
                }
                k = k + 1;
            }
            let ok4 = is_ipv4_chars(&parts[6]);
            proof {
                assert(parts.deep_view()[6] =~= parts@[6]@);
            }
            ok4
        } else {
            false
        }
    } else {
        let head = copy_range(v, 0, i);
        let tail = copy_range(v, i + 2, n);
        proof {
            assert(head@ =~= v@.take(i as int));
            assert(tail@ =~= v@.skip(i as int + 2));
        }
        // the double colon at i is the first one, so the whole address is
        // valid exactly when head and tail pass the compressed-form checks
        let ghost gi: int = i as int;
        assert(is_ipv6(v@) == ipv6_dc_ok(v@.take(gi), v@.skip(gi + 2))) by {
            assert(has_dc(v@));
            if ipv6_dc_ok(v@.take(gi), v@.skip(gi + 2)) {
                assert(dc_at(v@, gi) && (forall|j: int| 0 <= j < gi ==> !dc_at(v@, j))
                    && ipv6_dc_ok(v@.take(gi), v@.skip(gi + 2)));
            }
            if is_ipv6(v@) {
                let i2 = choose|i2: int|
                    {
                        &&& #[trigger] dc_at(v@, i2)
                        &&& (forall|j: int| 0 <= j < i2 ==> !dc_at(v@, j))
                        &&& ipv6_dc_ok(v@.take(i2), v@.skip(i2 + 2))
                    };
                if i2 < gi {
                    assert(!dc_at(v@, i2));
                } else if i2 > gi {
                    assert(!dc_at(v@, gi));
                }
                assert(i2 == gi);
            }
        }
        // a second double colon in the tail is rejected
        let tn: usize = tail.len();
        let mut j: usize = 0;
        if tn >= 2 {
            while j < tn - 1
                invariant
                    tn >= 2,
                    0 <= j <= tn - 1,
                    tn == tail@.len(),
                    tail@ == v@.skip(gi + 2),
                    is_ipv6(v@) == ipv6_dc_ok(v@.take(gi), v@.skip(gi + 2)),
                    forall|k: int| 0 <= k < j ==> !dc_at(tail@, k),
                decreases tn - j,
            {
                if tail[j] == ':' && tail[j + 1] == ':' {
                    proof {
                        assert(dc_at(tail@, j as int));
                    }
                    return false;
                }
                j = j + 1;
            }
        }
        proof {
            assert(forall|k: int| dc_at(tail@, k) ==> 0 <= k && k + 1 < tn);
            assert(!has_dc(tail@));
        }
        let (hok, hc) = head_info(&head);
        if !hok {
            return false;
        }
        let (tok, tc) = tail_info(&tail);
        if !tok {
            return false;
        }
        hc <= 7 && tc <= 7 && hc + tc <= 7
    }
}

/// The characters an address can be made of.
pub open spec fn is_ip_char(c: char) -> bool {
    is_hex_char(c) || c == ':' || c == '.'
}

proof fn lemma_ipv4_chars(s: Seq<char>)
    requires
        is_ipv4(s),
    ensures
        forall|i: int| 0 <= i < s.len() ==> is_ip_char(#[trigger] s[i]),
        s.len() > 0,
{
    assert forall|i: int| 0 <= i < s.len() implies is_ip_char(#[trigger] s[i]) by {
        if s[i] != '.' {
            crate::text::lemma_split_on_chars(s, '.', i);
            let (p, q) = choose|p: int, q: int|
                0 <= p < split_on(s, '.').len() && 0 <= q < split_on(s, '.')[p].len() && (
                #[trigger] split_on(s, '.')[p][q]) == s[i];
            assert(is_dec_octet(split_on(s, '.')[p]));
            assert(is_digit_char(split_on(s, '.')[p][q]));
        }
    }
    if s.len() == 0 {
        assert(sep_scan(s, '.').0.len() == 0);
        assert(split_on(s, '.').len() == 1);
    }
}

proof fn lemma_group_list_chars(s: Seq<char>, v4last: bool)
    requires
        ({
            let parts = split_on(s, ':');
            &&& (forall|j: int| 0 <= j < parts.len() - 1 ==> is_h16(#[trigger] parts[j]))
            &&& (is_h16(parts.last()) || (v4last && is_ipv4(parts.last())))
        }),
    ensures
        forall|i: int| 0 <= i < s.len() ==> is_ip_char(#[trigger] s[i]),
{
    let parts = split_on(s, ':');
    assert forall|i: int| 0 <= i < s.len() implies is_ip_char(#[trigger] s[i]) by {
        if s[i] != ':' {
            crate::text::lemma_split_on_chars(s, ':', i);
            let (p, q) = choose|p: int, q: int|
                0 <= p < split_on(s, ':').len() && 0 <= q < split_on(s, ':')[p].len() && (
                #[trigger] split_on(s, ':')[p][q]) == s[i];
            if p < parts.len() - 1 {
                assert(is_hex_char(parts[p][q]));
            } else {
                if is_h16(parts.last()) {
                    assert(is_hex_char(parts[p][q]));
                } else {
                    lemma_ipv4_chars(parts.last());
                }
            }
        }
    }
}

/// Every character of a valid address is a hex digit, a colon or a dot, and
/// the address is not empty.
pub proof fn lemma_ip_chars(s: Seq<char>)
    requires
        is_ip_sp(s),
    ensures
        forall|i: int| 0 <= i < s.len() ==> is_ip_char(#[trigger] s[i]),
        s.len() > 0,
{
    if is_ipv4(s) {
        lemma_ipv4_chars(s);
    } else {
        if has_dc(s) {
            let i0 = choose|i0: int|
                {
                    &&& #[trigger] dc_at(s, i0)
                    &&& (forall|j: int| 0 <= j < i0 ==> !dc_at(s, j))
                    &&& ipv6_dc_ok(s.take(i0), s.skip(i0 + 2))
                };
            let head = s.take(i0);
            let tail = s.skip(i0 + 2);
            assert forall|i: int| 0 <= i < s.len() implies is_ip_char(#[trigger] s[i]) by {
                if i < i0 {
                    assert(head.len() > 0);
                    assert(head[i] == s[i]);
                    if s[i] != ':' {
                        crate::text::lemma_split_on_chars(head, ':', i);
                        let (p, q) = choose|p: int, q: int|
                            0 <= p < split_on(head, ':').len() && 0 <= q < split_on(
                                head,
                                ':',
                            )[p].len() && (#[trigger] split_on(head, ':')[p][q]) == head[i];
                        assert(is_h16(split_on(head, ':')[p]));
                        assert(is_hex_char(split_on(head, ':')[p][q]));
                    }
                } else if i == i0 || i == i0 + 1 {
                    assert(s[i] == ':');
                } else {
                    assert(tail[i - i0 - 2] == s[i]);
                    assert(tail.len() > 0);
                    if s[i] != ':' {
                        crate::text::lemma_split_on_chars(tail, ':', i - i0 - 2);
                        let (p, q) = choose|p: int, q: int|
                            0 <= p < split_on(tail, ':').len() && 0 <= q < split_on(
                                tail,
                                ':',
                            )[p].len() && (#[trigger] split_on(tail, ':')[p][q]) == tail[i - i0
                                - 2];
                        let parts = split_on(tail, ':');
                        if p < parts.len() - 1 {
                            assert(is_hex_char(parts[p][q]));
                        } else {
                            if is_h16(parts.last()) {
                                assert(is_hex_char(parts[p][q]));
                            } else {
                                lemma_ipv4_chars(parts.last());
                            }
                        }
                    }
                }
            }
            assert(s.len() > 0);
        } else {
            let parts = split_on(s, ':');
            assert(parts.len() == 8 || parts.len() == 7);
            if parts.len() == 8 {
                assert(is_h16(parts.last()));
                lemma_group_list_chars(s, false);
            } else {
                assert(parts[6] == parts.last());
                lemma_group_list_chars(s, true);
            }
            if s.len() == 0 {
                assert(sep_scan(s, ':').0.len() == 0);
                assert(split_on(s, ':').len() == 1);
            }
        }
    }
}

/// An address character is neither whitespace nor a `#`.
pub proof fn lemma_ip_char_plain(c: char)
    requires
        is_ip_char(c),
    ensures
        !crate::text::is_ws_char(c),
        c != '#',
{
}

/// A lone `#` is not an address.
pub proof fn lemma_hash_not_ip()
    ensures
        !is_ip_sp(seq!['#']),
{
    let s: Seq<char> = seq!['#'];
    assert(s.len() == 1);
    if is_ip_sp(s) {
        lemma_ip_chars(s);
        assert(is_ip_char(s[0]));
    }
}

/// Whether the candidate characters form a valid IPv4 or IPv6 address.
pub fn is_ip_chars(v: &Vec<char>) -> (r: bool)
    ensures
        r == is_ip_sp(v@),
{
    if is_ipv4_chars(v) {
        true
    } else {
        is_ipv6_chars(v)
    }
}

/// Whether the candidate is a syntactically valid IPv4 or IPv6 address.
pub fn is_ip(s: &str) -> (r: bool)
    ensures
        r == is_ip_sp(s@),
{
    let v = to_chars(s);
    is_ip_chars(&v)
}

} // verus!
