use vstd::prelude::*;

verus! {

/// Appends one character to a `String`.
/// Trusted: `String::push` appends the UTF-8 encoding of `c`, so the
/// character view of the string grows by exactly `c` at the end.
#[verifier::external_body]
pub(crate) fn push_char(s: &mut String, c: char)
    ensures
        final(s)@ == old(s)@.push(c),
{
    s.push(c);
}

/// The characters of `s`, in order.
pub fn chars_of(s: &str) -> (r: Vec<char>)
    ensures
        r@ == s@,
{
    let mut v: Vec<char> = Vec::new();
    for c in it: s.chars()
        invariant
            v@ == it.seq().take(it.index() as int),
    {
        v.push(c);
    }
    v
}

/// A `String` whose characters are those of `v`.
pub fn string_of(v: &[char]) -> (r: String)
    ensures
        r@ == v@,
{
    let mut s = String::new();
    let n = v.len();
    let mut i: usize = 0;
    while i < n
        invariant
            n == v@.len(),
            i <= n,
            s@ == v@.take(i as int),
        decreases n - i,
    {
        push_char(&mut s, v[i]);
        assert(v@.take(i + 1) =~= v@.take(i as int).push(v@[i as int]));
        i = i + 1;
    }
    assert(v@.take(n as int) =~= v@);
    s
}


// ── Searching ────────────────────────────────────────────────────────────────

/// Index of the first occurrence of `c` in `s`, or -1 when there is none.
pub open spec fn index_of(s: Seq<char>, c: char) -> int
    decreases s.len(),
{
    if s.len() == 0 {
        -1
    } else if s[0] == c {
        0
    } else if index_of(s.drop_first(), c) < 0 {
        -1
    } else {
        index_of(s.drop_first(), c) + 1
    }
}

pub proof fn lemma_index_of(s: Seq<char>, c: char)
    ensures
        -1 <= index_of(s, c) < s.len(),
        index_of(s, c) == -1 <==> (forall|i: int| 0 <= i < s.len() ==> s[i] != c),
        index_of(s, c) >= 0 ==> s[index_of(s, c)] == c,
        forall|j: int| 0 <= j < index_of(s, c) ==> s[j] != c,
    decreases s.len(),
{
    if s.len() > 0 {
        lemma_index_of(s.drop_first(), c);
        if s[0] != c {
            assert forall|i: int| 0 <= i < s.len() && (forall|j: int| 0 <= j < s.len() - 1 ==> s.drop_first()[j] != c) implies s[i] != c by {
                if i > 0 {
                    assert(s[i] == s.drop_first()[i - 1]);
                }
            }
            assert forall|j: int| 0 <= j < index_of(s, c) implies s[j] != c by {
                if j > 0 {
                    assert(s[j] == s.drop_first()[j - 1]);
                }
            }
            if index_of(s, c) == -1 {
                assert forall|i: int| 0 <= i < s.len() implies s[i] != c by {
                    if i > 0 {
                        assert(s[i] == s.drop_first()[i - 1]);
                    }
                }
            } else {
                assert(s[index_of(s, c)] == s.drop_first()[index_of(s, c) - 1]);
            }
        }
    }
}

/// Characterises `index_of` by the first position that holds `c`.
pub proof fn lemma_index_of_at(s: Seq<char>, c: char, i: int)
    requires
        0 <= i < s.len(),
        s[i] == c,
        forall|j: int| 0 <= j < i ==> s[j] != c,
    ensures
        index_of(s, c) == i,
{
    lemma_index_of(s, c);
    if index_of(s, c) == -1 {
        assert(s[i] != c);
    } else if index_of(s, c) < i {
        assert(s[index_of(s, c)] != c);
    } else if index_of(s, c) > i {
        assert(s[i] != c);
    }
}

/// The position of the first `c` in `s`.
pub fn index_of_exec(s: &[char], c: char) -> (r: Option<usize>)
    ensures
        match r {
            Some(i) => i == index_of(s@, c) && i < s@.len(),
            None => index_of(s@, c) < 0,
        },
{
    proof {
        lemma_index_of(s@, c);
    }
    let n = s.len();
    let mut i: usize = 0;
    while i < n
        invariant
            n == s@.len(),
            i <= n,
            forall|j: int| 0 <= j < i ==> s@[j] != c,
        decreases n - i,
    {
        if s[i] == c {
            proof {
                lemma_index_of_at(s@, c, i as int);
            }
            return Some(i);
        }
        i = i + 1;
    }
    None
}

/// The pieces of `s` between occurrences of `sep` (as `str::split` yields them).
pub open spec fn split_char(s: Seq<char>, sep: char) -> Seq<Seq<char>>
    decreases s.len(),
{
    let i = index_of(s, sep);
    if i < 0 || i >= s.len() {
        seq![s]
    } else {
        seq![s.take(i)] + split_char(s.skip(i + 1), sep)
    }
}

/// The pieces of `ps` joined with `sep` between consecutive pieces.
pub open spec fn join_with(ps: Seq<Seq<char>>, sep: char) -> Seq<char>
    decreases ps.len(),
{
    if ps.len() == 0 {
        Seq::empty()
    } else if ps.len() == 1 {
        ps[0]
    } else {
        join_with(ps.drop_last(), sep).push(sep) + ps.last()
    }
}

pub proof fn lemma_split_char_nonempty(s: Seq<char>, sep: char)
    ensures
        split_char(s, sep).len() >= 1,
    decreases s.len(),
{
    lemma_index_of(s, sep);
    let i = index_of(s, sep);
    if i >= 0 {
        lemma_split_char_nonempty(s.skip(i + 1), sep);
    }
}

proof fn lemma_join_cons(a: Seq<char>, ps: Seq<Seq<char>>, c: char)
    requires
        ps.len() > 0,
    ensures
        join_with(seq![a] + ps, c) == a.push(c) + join_with(ps, c),
    decreases ps.len(),
{
    let qs = seq![a] + ps;
    if ps.len() == 1 {
        assert(qs.drop_last() =~= seq![a]);
        assert(qs.last() == ps[0]);
        assert(join_with(seq![a], c) == a);
        assert(join_with(ps, c) == ps[0]);
        assert(join_with(qs, c) == join_with(qs.drop_last(), c).push(c) + qs.last());
    } else {
        lemma_join_cons(a, ps.drop_last(), c);
        assert(qs.drop_last() =~= seq![a] + ps.drop_last());
        assert(qs.last() == ps.last());
        assert(join_with(qs, c) == join_with(qs.drop_last(), c).push(c) + qs.last());
        assert(join_with(ps, c) == join_with(ps.drop_last(), c).push(c) + ps.last());
        assert((a.push(c) + join_with(ps.drop_last(), c)).push(c) + ps.last() =~= a.push(c) + (join_with(
            ps.drop_last(),
            c,
        ).push(c) + ps.last()));
    }
}

/// Joining the pieces of a split gives the string back.
pub proof fn lemma_join_split(s: Seq<char>, c: char)
    ensures
        join_with(split_char(s, c), c) == s,
    decreases s.len(),
{
    lemma_index_of(s, c);
    let i = index_of(s, c);
    if i >= 0 {
        let r = s.skip(i + 1);
        lemma_join_split(r, c);
        lemma_split_char_nonempty(r, c);
        lemma_join_cons(s.take(i), split_char(r, c), c);
        assert(s.take(i).push(c) + r =~= s);
    }
}

/// Splitting `x`, `c`, `y` at `c` gives the pieces of `x` then those of `y`.
pub proof fn lemma_split_concat(x: Seq<char>, c: char, y: Seq<char>)
    ensures
        split_char(x.push(c) + y, c) == split_char(x, c) + split_char(y, c),
    decreases x.len(),
{
    let s = x.push(c) + y;
    lemma_index_of(x, c);
    let i = index_of(x, c);
    if i < 0 {
        assert forall|j: int| 0 <= j < x.len() implies s[j] != c by {
            assert(s[j] == x[j]);
        }
        lemma_index_of_at(s, c, x.len() as int);
        assert(s.take(x.len() as int) =~= x);
        assert(s.skip(x.len() as int + 1) =~= y);
        assert(split_char(x, c) == seq![x]);
    } else {
        assert forall|j: int| 0 <= j < i implies s[j] != c by {
            assert(s[j] == x[j]);
        }
        assert(s[i] == x[i]);
        lemma_index_of_at(s, c, i);
        let xr = x.skip(i + 1);
        lemma_split_concat(xr, c, y);
        assert(s.take(i) =~= x.take(i));
        assert(s.skip(i + 1) =~= xr.push(c) + y);
        assert(split_char(s, c) =~= seq![x.take(i)] + split_char(xr.push(c) + y, c));
        assert(split_char(x, c) =~= seq![x.take(i)] + split_char(xr, c));
    }
}

/// A string holding `c` splits into at least two pieces.
pub proof fn lemma_split_two(s: Seq<char>, c: char)
    requires
        s.contains(c),
    ensures
        split_char(s, c).len() >= 2,
{
    lemma_index_of(s, c);
    let k = choose|k: int| 0 <= k < s.len() && s[k] == c;
    let i = index_of(s, c);
    lemma_split_char_nonempty(s.skip(i + 1), c);
}

/// A copy of `s[a..b]`.
pub fn subvec(s: &[char], a: usize, b: usize) -> (r: Vec<char>)
    requires
        a <= b <= s@.len(),
    ensures
        r@ == s@.subrange(a as int, b as int),
{
    let mut r: Vec<char> = Vec::new();
    let mut i: usize = a;
    while i < b
        invariant
            a <= i <= b <= s@.len(),
            r@ == s@.subrange(a as int, i as int),
        decreases b - i,
    {
        r.push(s[i]);
        assert(s@.subrange(a as int, i + 1) =~= s@.subrange(a as int, i as int).push(s@[i as int]));
        i = i + 1;
    }
    r
}

/// The view of each piece of `v`.
pub open spec fn views_of(v: Seq<Vec<char>>) -> Seq<Seq<char>> {
    v.map_values(|x: Vec<char>| x@)
}

/// Splits `s` at every occurrence of `sep`.
pub fn split_vec(s: &[char], sep: char) -> (r: Vec<Vec<char>>)
    ensures
        views_of(r@) == split_char(s@, sep),
{
    let n = s.len();
    let mut parts: Vec<Vec<char>> = Vec::new();
    let mut start: usize = 0;
    let mut i: usize = 0;
    assert(s@.subrange(0, n as int) =~= s@);
    assert(views_of(parts@) + split_char(s@, sep) =~= split_char(s@, sep));
    while i < n
        invariant
            n == s@.len(),
            start <= i <= n,
            forall|j: int| start <= j < i ==> s@[j] != sep,
            split_char(s@, sep) == views_of(parts@) + split_char(s@.subrange(start as int, n as int), sep),
        decreases n - i,
    {
        if s[i] == sep {
            let ghost rest = s@.subrange(start as int, n as int);
            proof {
                lemma_index_of_at(rest, sep, i - start);
                assert(rest.take(i - start) =~= s@.subrange(start as int, i as int));
                assert(rest.skip(i - start + 1) =~= s@.subrange(i + 1, n as int));
            }
            let piece = subvec(s, start, i);
            let ghost old_parts = parts@;
            parts.push(piece);
            assert(views_of(parts@) =~= views_of(old_parts).push(piece@));
            assert(views_of(old_parts) + split_char(rest, sep) =~= views_of(parts@) + split_char(s@.subrange(i + 1, n as int), sep));
            start = i + 1;
        }
        i = i + 1;
    }
    let ghost rest = s@.subrange(start as int, n as int);
    proof {
        lemma_index_of(rest, sep);
        assert forall|j: int| 0 <= j < rest.len() implies rest[j] != sep by {
            assert(rest[j] == s@[start + j]);
        }
    }
    let piece = subvec(s, start, n);
    let ghost old_parts = parts@;
    parts.push(piece);
    assert(views_of(parts@) =~= views_of(old_parts).push(piece@));
    assert(views_of(parts@) =~= views_of(old_parts) + split_char(rest, sep));
    assert(s@.subrange(0, n as int) =~= s@);
    parts
}


/// Whether `a` and `b` hold the same characters.
pub fn eq_chars(a: &[char], b: &[char]) -> (r: bool)
    ensures
        r == (a@ == b@),
{
    if a.len() != b.len() {
        return false;
    }
    let n = a.len();
    let mut i: usize = 0;
    while i < n
        invariant
            n == a@.len() == b@.len(),
            i <= n,
            forall|j: int| 0 <= j < i ==> a@[j] == b@[j],
        decreases n - i,
    {
        if a[i] != b[i] {
            return false;
        }
        i = i + 1;
    }
    assert(a@ =~= b@);
    true
}

/// Whether `s` holds exactly the characters of `lit`.
pub fn eq_lit(s: &[char], lit: &str) -> (r: bool)
    ensures
        r == (s@ == lit@),
{
    let l = chars_of(lit);
    eq_chars(s, &l)
}

/// `p` occurs in `s` at position `i`.
pub open spec fn occurs_at(s: Seq<char>, p: Seq<char>, i: int) -> bool {
    0 <= i && i + p.len() <= s.len() && s.subrange(i, i + p.len()) == p
}

/// Whether `s` holds `p` at position `pos`.
pub fn occurs_at_exec(s: &[char], p: &[char], pos: usize) -> (r: bool)
    ensures
        r == occurs_at(s@, p@, pos as int),
{
    if pos > s.len() || p.len() > s.len() - pos {
        return false;
    }
    let n = p.len();
    let mut i: usize = 0;
    while i < n
        invariant
            n == p@.len(),
            pos + n <= s@.len(),
            s@.len() <= usize::MAX,
            i <= n,
            forall|j: int| 0 <= j < i ==> s@[pos + j] == p@[j],
        decreases n - i,
    {
        if s[pos + i] != p[i] {
            assert(s@.subrange(pos as int, pos + n)[i as int] != p@[i as int]);
            return false;
        }
        i = i + 1;
    }
    assert(s@.subrange(pos as int, pos + n) =~= p@);
    true
}

/// `s` begins with `p`.
pub open spec fn starts_with(s: Seq<char>, p: Seq<char>) -> bool {
    p.len() <= s.len() && s.take(p.len() as int) == p
}

/// `s` ends with `p`.
pub open spec fn ends_with(s: Seq<char>, p: Seq<char>) -> bool {
    p.len() <= s.len() && s.skip(s.len() - p.len()) == p
}

pub fn starts_with_exec(s: &[char], p: &[char]) -> (r: bool)
    ensures
        r == starts_with(s@, p@),
{
    let r = occurs_at_exec(s, p, 0);
    assert(r ==> s@.take(p@.len() as int) =~= s@.subrange(0, p@.len() as int));
    assert(starts_with(s@, p@) ==> s@.take(p@.len() as int) =~= s@.subrange(0, p@.len() as int));
    r
}

pub fn ends_with_exec(s: &[char], p: &[char]) -> (r: bool)
    ensures
        r == ends_with(s@, p@),
{
    if p.len() > s.len() {
        return false;
    }
    let r = occurs_at_exec(s, p, s.len() - p.len());
    assert(s@.skip(s@.len() - p@.len()) =~= s@.subrange(s@.len() - p@.len(), s@.len() as int));
    r
}

/// Index of the first occurrence of `p` in `s`, or -1 when there is none.
pub open spec fn find_seq(s: Seq<char>, p: Seq<char>) -> int
    decreases s.len(),
{
    if s.len() < p.len() {
        -1
    } else if s.take(p.len() as int) =~= p {
        0
    } else if s.len() == 0 {
        -1
    } else if find_seq(s.drop_first(), p) < 0 {
        -1
    } else {
        find_seq(s.drop_first(), p) + 1
    }
}

/// `s` contains `p` somewhere.
pub open spec fn contains_seq(s: Seq<char>, p: Seq<char>) -> bool {
    exists|i: int| occurs_at(s, p, i)
}

pub proof fn lemma_find_seq(s: Seq<char>, p: Seq<char>)
    ensures
        -1 <= find_seq(s, p),
        find_seq(s, p) >= 0 ==> occurs_at(s, p, find_seq(s, p)),
        forall|j: int| 0 <= j < find_seq(s, p) ==> !occurs_at(s, p, j),
        find_seq(s, p) == -1 ==> forall|j: int| !occurs_at(s, p, j),
        find_seq(s, p) == -1 <==> !contains_seq(s, p),
    decreases s.len(),
{
    if s.len() < p.len() {
    } else if s.take(p.len() as int) =~= p {
        assert(s.subrange(0, p.len() as int) =~= s.take(p.len() as int));
    } else if s.len() == 0 {
    } else {
        lemma_find_seq(s.drop_first(), p);
        assert forall|j: int| occurs_at(s, p, j) && j > 0 implies occurs_at(s.drop_first(), p, j - 1) by {
            assert(s.drop_first().subrange(j - 1, j - 1 + p.len()) =~= s.subrange(j, j + p.len()));
        }
        assert(!occurs_at(s, p, 0)) by {
            if occurs_at(s, p, 0) {
                assert(s.subrange(0, p.len() as int) =~= s.take(p.len() as int));
            }
        }
        let f = find_seq(s.drop_first(), p);
        if f >= 0 {
            assert(occurs_at(s.drop_first(), p, f));
            assert(s.drop_first().subrange(f, f + p.len()) =~= s.subrange(f + 1, f + 1 + p.len()));
        }
        assert forall|j: int| 0 <= j < find_seq(s, p) implies !occurs_at(s, p, j) by {
            if j > 0 && occurs_at(s, p, j) {
                assert(occurs_at(s.drop_first(), p, j - 1));
            }
        }
        if find_seq(s, p) == -1 {
            assert forall|j: int| !occurs_at(s, p, j) by {
                if j > 0 && occurs_at(s, p, j) {
                    assert(occurs_at(s.drop_first(), p, j - 1));
                }
            }
        }
    }
    if find_seq(s, p) >= 0 {
        assert(occurs_at(s, p, find_seq(s, p)));
        assert(contains_seq(s, p));
    }
}

/// The first position of `p` in `s`.
pub fn find_exec(s: &[char], p: &[char]) -> (r: Option<usize>)
    ensures
        match r {
            Some(i) => i == find_seq(s@, p@),
            None => find_seq(s@, p@) == -1,
        },
{
    proof {
        lemma_find_seq(s@, p@);
    }
    if p.len() > s.len() {
        proof {
            assert forall|j: int| !occurs_at(s@, p@, j) by {}
            lemma_find_first_is(s@, p@, -1);
        }
        return None;
    }
    let last = s.len() - p.len();
    let mut i: usize = 0;
    loop
        invariant
            last == s@.len() - p@.len(),
            i <= last,
            forall|j: int| 0 <= j < i ==> !occurs_at(s@, p@, j),
        decreases last - i,
    {
        if occurs_at_exec(s, p, i) {
            proof {
                lemma_find_first_is(s@, p@, i as int);
            }
            return Some(i);
        }
        if i == last {
            proof {
                assert forall|j: int| !occurs_at(s@, p@, j) by {
                    if j > last {
                    }
                }
                lemma_find_first_is(s@, p@, -1);
            }
            return None;
        }
        i = i + 1;
    }
}

/// `find_seq` is determined by the first occurrence.
pub proof fn lemma_find_first_is(s: Seq<char>, p: Seq<char>, i: int)
    requires
        i == -1 ==> forall|j: int| !occurs_at(s, p, j),
        i >= 0 ==> occurs_at(s, p, i) && forall|j: int| 0 <= j < i ==> !occurs_at(s, p, j),
        i >= -1,
    ensures
        find_seq(s, p) == i,
{
    lemma_find_seq(s, p);
    let f = find_seq(s, p);
    if f >= 0 && i >= 0 {
        if f < i {
            assert(!occurs_at(s, p, f));
        } else if f > i {
            assert(!occurs_at(s, p, i));
        }
    } else if f >= 0 && i == -1 {
        assert(!occurs_at(s, p, f));
    } else if f == -1 && i >= 0 {
        assert(!occurs_at(s, p, i));
    }
}

/// Whether `c` occurs in `s`.
pub fn contains_char(s: &[char], c: char) -> (r: bool)
    ensures
        r == s@.contains(c),
{
    let n = s.len();
    let mut i: usize = 0;
    while i < n
        invariant
            n == s@.len(),
            i <= n,
            forall|j: int| 0 <= j < i ==> s@[j] != c,
        decreases n - i,
    {
        if s[i] == c {
            assert(s@[i as int] == c);
            return true;
        }
        i = i + 1;
    }
    false
}

// ── Trimming ─────────────────────────────────────────────────────────────────

/// Unicode `White_Space` (the characters that `char::is_whitespace` accepts).
pub open spec fn is_white_space(c: char) -> bool {
    let u = c as u32;
    (0x9 <= u <= 0xd) || u == 0x20 || u == 0x85 || u == 0xa0 || u == 0x1680 || (0x2000 <= u
        <= 0x200a) || u == 0x2028 || u == 0x2029 || u == 0x202f || u == 0x205f || u == 0x3000
}

pub fn is_white_space_exec(c: char) -> (r: bool)
    ensures
        r == is_white_space(c),
{
    let u = c as u32;
    (0x9 <= u && u <= 0xd) || u == 0x20 || u == 0x85 || u == 0xa0 || u == 0x1680 || (0x2000 <= u
        && u <= 0x200a) || u == 0x2028 || u == 0x2029 || u == 0x202f || u == 0x205f || u == 0x3000
}

/// Which characters a trim removes: white space, or one given character.
pub enum TrimSet {
    WhiteSpace,
    Only(char),
}

pub open spec fn in_trim_set(t: TrimSet, c: char) -> bool {
    match t {
        TrimSet::WhiteSpace => is_white_space(c),
        TrimSet::Only(d) => c == d,
    }
}

fn in_trim_set_exec(t: &TrimSet, c: char) -> (r: bool)
    ensures
        r == in_trim_set(*t, c),
{
    match t {
        TrimSet::WhiteSpace => is_white_space_exec(c),
        TrimSet::Only(d) => c == *d,
    }
}

/// `s` without its leading characters from `t`.
pub open spec fn strip_start(s: Seq<char>, t: TrimSet) -> Seq<char>
    decreases s.len(),
{
    if s.len() > 0 && in_trim_set(t, s[0]) {
        strip_start(s.drop_first(), t)
    } else {
        s
    }
}

/// `s` without its trailing characters from `t`.
pub open spec fn strip_end(s: Seq<char>, t: TrimSet) -> Seq<char>
    decreases s.len(),
{
    if s.len() > 0 && in_trim_set(t, s.last()) {
        strip_end(s.drop_last(), t)
    } else {
        s
    }
}

/// `s` without leading and trailing characters from `t` (`str::trim_matches`).
pub open spec fn strip_both(s: Seq<char>, t: TrimSet) -> Seq<char> {
    strip_end(strip_start(s, t), t)
}

/// `str::trim`: leading and trailing white space removed.
pub open spec fn trim(s: Seq<char>) -> Seq<char> {
    strip_both(s, TrimSet::WhiteSpace)
}

fn strip_start_len(s: &[char], t: &TrimSet) -> (r: usize)
    ensures
        r <= s@.len(),
        strip_start(s@, *t) == s@.skip(r as int),
{
    let n = s.len();
    let mut i: usize = 0;
    assert(s@.skip(0) =~= s@);
    while i < n && in_trim_set_exec(t, s[i])
        invariant
            n == s@.len(),
            i <= n,
            strip_start(s@, *t) == strip_start(s@.skip(i as int), *t),
        decreases n - i,
    {
        assert(s@.skip(i as int).drop_first() =~= s@.skip(i + 1));
        i = i + 1;
    }
    i
}

fn strip_end_len(s: &[char], t: &TrimSet) -> (r: usize)
    ensures
        r <= s@.len(),
        strip_end(s@, *t) == s@.take(r as int),
{
    let mut i: usize = s.len();
    assert(s@.take(i as int) =~= s@);
    while i > 0 && in_trim_set_exec(t, s[i - 1])
        invariant
            i <= s@.len(),
            strip_end(s@, *t) == strip_end(s@.take(i as int), *t),
        decreases i,
    {
        assert(s@.take(i as int).drop_last() =~= s@.take(i - 1));
        i = i - 1;
    }
    i
}

/// `s` with leading and trailing characters from `t` removed.
pub fn strip_both_exec(s: &[char], t: TrimSet) -> (r: Vec<char>)
    ensures
        r@ == strip_both(s@, t),
{
    let a = strip_start_len(s, &t);
    let inner = subvec(s, a, s.len());
    assert(inner@ =~= s@.skip(a as int));
    let b = strip_end_len(&inner, &t);
    subvec(&inner, 0, b)
}

/// `s` with trailing characters from `t` removed.
pub fn strip_end_exec(s: &[char], t: TrimSet) -> (r: Vec<char>)
    ensures
        r@ == strip_end(s@, t),
{
    let b = strip_end_len(s, &t);
    subvec(s, 0, b)
}

/// `str::trim`.
pub fn trim_exec(s: &[char]) -> (r: Vec<char>)
    ensures
        r@ == trim(s@),
{
    strip_both_exec(s, TrimSet::WhiteSpace)
}

// ── Case ─────────────────────────────────────────────────────────────────────

/// What `str::to_lowercase` gives for a string with the characters `s`.
pub uninterp spec fn lowercase(s: Seq<char>) -> Seq<char>;

/// An ASCII character lowercased: `A`..=`Z` become `a`..=`z`, every other
/// character is kept.
pub open spec fn ascii_lower(c: char) -> char {
    if 'A' <= c && c <= 'Z' {
        ((c as u32) + 32) as char
    } else {
        c
    }
}

/// Every character of `s` is ASCII.
pub open spec fn all_ascii(s: Seq<char>) -> bool {
    forall|i: int| 0 <= i < s.len() ==> (s[i] as u32) < 128
}

/// What `str::to_lowercase` gives for the characters `s`, written out for
/// ASCII input.
pub open spec fn lower_chars(s: Seq<char>) -> Seq<char> {
    if all_ascii(s) {
        s.map_values(|c: char| ascii_lower(c))
    } else {
        lowercase(s)
    }
}

/// Lowercase by the Unicode rules of `str::to_lowercase`.
/// Trusted: the result is named `lowercase` of the input characters, and on
/// ASCII input it is the input with `A`..=`Z` mapped to `a`..=`z` (the
/// Unicode lowercase mapping of ASCII); the Unicode case tables for other
/// characters are not stated.
#[verifier::external_body]
pub(crate) fn to_lowercase(s: &[char]) -> (r: Vec<char>)
    ensures
        r@ == lowercase(s@),
        all_ascii(s@) ==> r@ == s@.map_values(|c: char| ascii_lower(c)),
{
    let st: String = s.iter().collect();
    st.to_lowercase().chars().collect()
}

/// What `char::is_alphanumeric` answers for `c`.
pub uninterp spec fn alphanumeric(c: char) -> bool;

/// `char::is_alphanumeric` (Unicode `Alphabetic` or `Numeric`).
/// Trusted: the answer is named `alphanumeric`; the Unicode tables are not stated.
#[verifier::external_body]
pub(crate) fn is_alphanumeric(c: char) -> (r: bool)
    ensures
        r == alphanumeric(c),
{
    c.is_alphanumeric()
}

proof fn lemma_strip_start_idem(s: Seq<char>, t: TrimSet)
    ensures
        strip_start(strip_start(s, t), t) == strip_start(s, t),
        strip_start(s, t).len() == 0 || !in_trim_set(t, strip_start(s, t)[0]),
    decreases s.len(),
{
    if s.len() > 0 && in_trim_set(t, s[0]) {
        lemma_strip_start_idem(s.drop_first(), t);
    }
}

proof fn lemma_strip_end_prefix(s: Seq<char>, t: TrimSet)
    ensures
        strip_end(strip_end(s, t), t) == strip_end(s, t),
        strip_end(s, t).len() <= s.len(),
        strip_end(s, t) == s.take(strip_end(s, t).len() as int),
    decreases s.len(),
{
    if s.len() > 0 && in_trim_set(t, s.last()) {
        lemma_strip_end_prefix(s.drop_last(), t);
        let r = strip_end(s, t);
        assert(s.drop_last().take(r.len() as int) =~= s.take(r.len() as int));
    } else {
        assert(s.take(s.len() as int) =~= s);
    }
}

/// Trimming twice trims nothing more.
pub proof fn lemma_strip_both_idem(s: Seq<char>, t: TrimSet)
    ensures
        strip_both(strip_both(s, t), t) == strip_both(s, t),
{
    let x = strip_start(s, t);
    lemma_strip_start_idem(s, t);
    lemma_strip_end_prefix(x, t);
    let y = strip_end(x, t);
    if y.len() > 0 {
        assert(y[0] == x[0]);
    }
    assert(strip_start(y, t) == y);
}

} // verus!
