//! Textual IP addresses: the IPv4 and IPv6 forms that `IpAddr`'s `FromStr`
//! accepts. Filter rules whose domain part is such a literal are ignored.
use vstd::prelude::*;
use crate::text::{find_exec, find_seq, lemma_find_seq, occurs_at, split_char, split_vec, subvec, views_of};

verus! {

// ── Grammar ──────────────────────────────────────────────────────────────────

pub open spec fn is_dec_digit(c: char) -> bool {
    48 <= (c as u32) && (c as u32) <= 57
}

pub open spec fn is_hex_digit(c: char) -> bool {
    is_dec_digit(c) || (97 <= (c as u32) && (c as u32) <= 102) || (65 <= (c as u32) && (c as u32) <= 70)
}

/// The value of a string of decimal digits.
pub open spec fn dec_value(s: Seq<char>) -> int
    decreases s.len(),
{
    if s.len() == 0 {
        0
    } else {
        dec_value(s.drop_last()) * 10 + ((s.last() as u32) - 48)
    }
}

/// One part of a dotted IPv4 address: one to three decimal digits, at most
/// 255, with no leading zero unless it is the single digit `0`.
pub open spec fn is_octet(s: Seq<char>) -> bool {
    &&& 1 <= s.len() <= 3
    &&& forall|i: int| 0 <= i < s.len() ==> is_dec_digit(#[trigger] s[i])
    &&& dec_value(s) <= 255
    &&& (s.len() > 1 ==> s[0] != '0')
}

/// A dotted IPv4 address: four octets separated by dots.
pub open spec fn is_ipv4(s: Seq<char>) -> bool {
    let p = split_char(s, '.');
    p.len() == 4 && forall|i: int| 0 <= i < 4 ==> is_octet(#[trigger] p[i])
}

/// One group of an IPv6 address: one to four hexadecimal digits.
pub open spec fn is_hex_group(s: Seq<char>) -> bool {
    1 <= s.len() <= 4 && forall|i: int| 0 <= i < s.len() ==> is_hex_digit(#[trigger] s[i])
}

pub open spec fn hex_groups(ps: Seq<Seq<char>>) -> bool {
    forall|i: int| 0 <= i < ps.len() ==> is_hex_group(#[trigger] ps[i])
}

/// `ps` fills at most `room` groups: hex groups, the last of which may
/// instead be an IPv4 address, which takes two groups.
pub open spec fn fits_groups(ps: Seq<Seq<char>>, room: int) -> bool {
    ||| hex_groups(ps) && ps.len() <= room
    ||| ps.len() >= 1 && hex_groups(ps.drop_last()) && is_ipv4(ps.last()) && ps.len() + 1 <= room
}

/// An IPv6 address: eight groups, or fewer with the first `::` standing for
/// the missing ones; an embedded IPv4 address may only end it.
pub open spec fn is_ipv6(s: Seq<char>) -> bool {
    let d = find_seq(s, seq![':', ':']);
    if d < 0 {
        let ps = split_char(s, ':');
        ||| hex_groups(ps) && ps.len() == 8
        ||| ps.len() == 7 && hex_groups(ps.drop_last()) && is_ipv4(ps.last())
    } else {
        let head = s.take(d);
        let tail = s.skip(d + 2);
        let n: int = if head.len() == 0 { 0 } else { split_char(head, ':').len() as int };
        &&& head.len() == 0 || (hex_groups(split_char(head, ':')) && n <= 7)
        &&& tail.len() == 0 || fits_groups(split_char(tail, ':'), 7 - n)
    }
}

/// `s` is an IP address literal.
pub open spec fn is_ip_literal(s: Seq<char>) -> bool {
    is_ipv4(s) || is_ipv6(s)
}

// ── Recognizers ──────────────────────────────────────────────────────────────

fn is_dec_digit_exec(c: char) -> (r: bool)
    ensures
        r == is_dec_digit(c),
{
    let u = c as u32;
    48 <= u && u <= 57
}

fn is_hex_digit_exec(c: char) -> (r: bool)
    ensures
        r == is_hex_digit(c),
{
    let u = c as u32;
    (48 <= u && u <= 57) || (97 <= u && u <= 102) || (65 <= u && u <= 70)
}

fn is_octet_exec(p: &[char]) -> (r: bool)
    ensures
        r == is_octet(p@),
{
    let n = p.len();
    if n < 1 || n > 3 {
        return false;
    }
    let mut v: u32 = 0;
    let mut i: usize = 0;
    while i < n
        invariant
            n == p@.len(),
            1 <= n <= 3,
            i <= n,
            forall|j: int| 0 <= j < i ==> is_dec_digit(#[trigger] p@[j]),
            v == dec_value(p@.take(i as int)),
            i == 0 ==> v == 0,
            i <= 1 ==> v < 10,
            i <= 2 ==> v < 100,
            v < 1000,
        decreases n - i,
    {
        if !is_dec_digit_exec(p[i]) {
            return false;
        }
        assert(p@.take(i + 1).drop_last() =~= p@.take(i as int));
        assert(p@.take(i + 1).last() == p@[i as int]);
        v = v * 10 + (p[i] as u32 - 48);
        i = i + 1;
    }
    assert(p@.take(n as int) =~= p@);
    v <= 255 && (n == 1 || p[0] != '0')
}

fn is_hex_group_exec(p: &[char]) -> (r: bool)
    ensures
        r == is_hex_group(p@),
{
    let n = p.len();
    if n < 1 || n > 4 {
        return false;
    }
    let mut i: usize = 0;
    while i < n
        invariant
            n == p@.len(),
            i <= n,
            forall|j: int| 0 <= j < i ==> is_hex_digit(#[trigger] p@[j]),
        decreases n - i,
    {
        if !is_hex_digit_exec(p[i]) {
            return false;
        }
        i = i + 1;
    }
    true
}

/// Whether `s` is a dotted IPv4 address.
pub fn is_ipv4_exec(s: &[char]) -> (r: bool)
    ensures
        r == is_ipv4(s@),
{
    let parts = split_vec(s, '.');
    let ghost pv = views_of(parts@);
    if parts.len() != 4 {
        return false;
    }
    let mut k: usize = 0;
    while k < 4
        invariant
            pv == views_of(parts@),
            pv == split_char(s@, '.'),
            pv.len() == 4,
            k <= 4,
            forall|j: int| 0 <= j < k ==> is_octet(#[trigger] pv[j]),
        decreases 4 - k,
    {
        assert(pv[k as int] == parts@[k as int]@);
        if !is_octet_exec(&parts[k]) {
            return false;
        }
        k = k + 1;
    }
    true
}

/// Whether the first `n` pieces are hex groups.
fn hex_prefix(ps: &Vec<Vec<char>>, n: usize) -> (r: bool)
    requires
        n <= ps@.len(),
    ensures
        r == hex_groups(views_of(ps@).take(n as int)),
{
    let ghost pv = views_of(ps@);
    let mut k: usize = 0;
    while k < n
        invariant
            pv == views_of(ps@),
            n <= pv.len(),
            k <= n,
            forall|j: int| 0 <= j < k ==> is_hex_group(#[trigger] pv[j]),
        decreases n - k,
    {
        assert(pv[k as int] == ps@[k as int]@);
        if !is_hex_group_exec(&ps[k]) {
            assert(pv.take(n as int)[k as int] == pv[k as int]);
            return false;
        }
        k = k + 1;
    }
    assert forall|j: int| 0 <= j < n implies is_hex_group(#[trigger] pv.take(n as int)[j]) by {
        assert(pv.take(n as int)[j] == pv[j]);
    }
    true
}

fn fits_groups_exec(ps: &Vec<Vec<char>>, room: usize) -> (r: bool)
    ensures
        r == fits_groups(views_of(ps@), room as int),
{
    let ghost pv = views_of(ps@);
    let k = ps.len();
    assert(pv.take(k as int) =~= pv);
    if hex_prefix(ps, k) && k <= room {
        return true;
    }
    if k == 0 {
        return false;
    }
    assert(pv.take(k - 1) =~= pv.drop_last());
    assert(pv.last() == ps@[k - 1]@);
    hex_prefix(ps, k - 1) && is_ipv4_exec(&ps[k - 1]) && k < room
}

/// Whether `s` is an IPv6 address.
pub fn is_ipv6_exec(s: &[char]) -> (r: bool)
    ensures
        r == is_ipv6(s@),
{
    let mut pat: Vec<char> = Vec::new();
    pat.push(':');
    pat.push(':');
    assert(pat@ =~= seq![':', ':']);
    proof {
        lemma_find_seq(s@, pat@);
    }
    match find_exec(s, &pat) {
        None => {
            let ps = split_vec(s, ':');
            let ghost pv = views_of(ps@);
            let k = ps.len();
            assert(pv.take(k as int) =~= pv);
            if k == 8 {
                hex_prefix(&ps, 8)
            } else if k == 7 {
                assert(pv.take(6) =~= pv.drop_last());
                assert(pv.last() == ps@[6]@);
                hex_prefix(&ps, 6) && is_ipv4_exec(&ps[6])
            } else {
                false
            }
        },
        Some(d) => {
            assert(occurs_at(s@, pat@, d as int));
            let sl = s.len();
            assert(d + 2 <= sl);
            let head = subvec(s, 0, d);
            let tail = subvec(s, d + 2, sl);
            assert(head@ =~= s@.take(d as int));
            assert(tail@ =~= s@.skip(d + 2));
            let mut n: usize = 0;
            if head.len() > 0 {
                let hp = split_vec(&head, ':');
                assert(views_of(hp@).take(hp@.len() as int) =~= views_of(hp@));
                if hp.len() > 7 || !hex_prefix(&hp, hp.len()) {
                    return false;
                }
                n = hp.len();
            }
            if tail.len() == 0 {
                return true;
            }
            let tp = split_vec(&tail, ':');
            fits_groups_exec(&tp, 7 - n)
        },
    }
}

/// Whether `s` is an IPv4 or IPv6 address literal.
pub fn is_ip_literal_exec(s: &[char]) -> (r: bool)
    ensures
        r == is_ip_literal(s@),
{
    is_ipv4_exec(s) || is_ipv6_exec(s)
}

} // verus!
