use vstd::prelude::*;
use crate::text::{eq_chars, index_of, lemma_index_of, lemma_index_of_at, lemma_split_char_nonempty, join_with, split_char, split_vec, starts_with_exec, views_of};

verus! {

/// A domain with its dot-separated labels in reverse order
/// (`ads.example.com` becomes `com.example.ads`).
pub open spec fn reverse_domain(s: Seq<char>) -> Seq<char> {
    join_with(split_char(s, '.').reverse(), '.')
}

/// One step of the label reversal: the first label moves to the end.
pub proof fn lemma_reverse_domain_step(s: Seq<char>)
    ensures
        index_of(s, '.') < 0 ==> reverse_domain(s) == s,
        index_of(s, '.') >= 0 ==> reverse_domain(s) == reverse_domain(s.skip(index_of(s, '.') + 1)).push('.')
            + s.take(index_of(s, '.')),
{
    lemma_index_of(s, '.');
    let i = index_of(s, '.');
    if i < 0 {
        assert(split_char(s, '.') =~= seq![s]);
        assert(split_char(s, '.').reverse() =~= seq![s]);
    } else {
        let rest = s.skip(i + 1);
        let r = split_char(rest, '.');
        lemma_split_char_nonempty(rest, '.');
        assert(split_char(s, '.') == seq![s.take(i)] + r);
        let rr = (seq![s.take(i)] + r).reverse();
        assert(rr =~= r.reverse().push(s.take(i)));
        assert(rr.drop_last() =~= r.reverse());
    }
}

/// Reversing the labels keeps the length.
pub proof fn lemma_reverse_domain_len(s: Seq<char>)
    ensures
        reverse_domain(s).len() == s.len(),
    decreases s.len(),
{
    lemma_reverse_domain_step(s);
    lemma_index_of(s, '.');
    let i = index_of(s, '.');
    if i >= 0 {
        lemma_reverse_domain_len(s.skip(i + 1));
    }
}

/// Reversing `x.d` puts the reversed `d` first: `rev(x.d) == rev(d).rev(x)`.
pub proof fn lemma_reverse_subdomain(x: Seq<char>, d: Seq<char>)
    ensures
        reverse_domain(x.push('.') + d) == reverse_domain(d).push('.') + reverse_domain(x),
    decreases x.len(),
{
    let s = x.push('.') + d;
    lemma_index_of(x, '.');
    lemma_reverse_domain_step(s);
    lemma_reverse_domain_step(x);
    let i = index_of(x, '.');
    if i < 0 {
        assert forall|j: int| 0 <= j < x.len() implies s[j] != '.' by {
            assert(s[j] == x[j]);
        }
        lemma_index_of_at(s, '.', x.len() as int);
        assert(s.skip(x.len() as int + 1) =~= d);
        assert(s.take(x.len() as int) =~= x);
    } else {
        assert forall|j: int| 0 <= j < i implies s[j] != '.' by {
            assert(s[j] == x[j]);
        }
        assert(s[i] == x[i]);
        lemma_index_of_at(s, '.', i);
        let rest = x.skip(i + 1);
        assert(s.skip(i + 1) =~= rest.push('.') + d);
        assert(s.take(i) =~= x.take(i));
        lemma_reverse_subdomain(rest, d);
        assert(reverse_domain(s) =~= reverse_domain(d).push('.') + reverse_domain(x));
    }
}

/// Reversing the labels twice gives the domain back.
pub proof fn lemma_reverse_domain_involutive(d: Seq<char>)
    ensures
        reverse_domain(reverse_domain(d)) == d,
    decreases d.len(),
{
    lemma_index_of(d, '.');
    lemma_reverse_domain_step(d);
    let i = index_of(d, '.');
    if i >= 0 {
        let a = d.take(i);
        let b = d.skip(i + 1);
        lemma_reverse_domain_involutive(b);
        lemma_index_of(a, '.');
        assert forall|j: int| 0 <= j < a.len() implies a[j] != '.' by {
            assert(a[j] == d[j]);
        }
        lemma_reverse_domain_step(a);
        lemma_reverse_subdomain(reverse_domain(b), a);
        assert(a.push('.') + b =~= d);
    }
}

/// `key` names `q` itself or one of its parents, in reversed form: `q` equals
/// `key`, or continues it after a label boundary.
pub open spec fn label_prefix(key: Seq<char>, q: Seq<char>) -> bool {
    key == q || (key.len() < q.len() && q.take(key.len() as int) == key && q[key.len() as int] == '.')
}

/// Appends the characters of `s` to `out`.
pub fn append_chars(out: &mut Vec<char>, s: &[char])
    ensures
        final(out)@ == old(out)@ + s@,
{
    let n = s.len();
    let mut i: usize = 0;
    while i < n
        invariant
            n == s@.len(),
            i <= n,
            out@ == old(out)@ + s@.take(i as int),
        decreases n - i,
    {
        out.push(s[i]);
        assert(s@.take(i + 1) =~= s@.take(i as int).push(s@[i as int]));
        i = i + 1;
    }
    assert(s@.take(n as int) =~= s@);
}

/// Reverses the label order of a domain.
pub fn reverse_domain_chars(d: &[char]) -> (r: Vec<char>)
    ensures
        r@ == reverse_domain(d@),
{
    let parts = split_vec(d, '.');
    let ghost ps = views_of(parts@);
    let n = parts.len();
    let mut out: Vec<char> = Vec::new();
    let mut k: usize = n;
    assert(ps.subrange(n as int, n as int).reverse() =~= Seq::<Seq<char>>::empty());
    while k > 0
        invariant
            n == parts@.len() == ps.len(),
            ps == views_of(parts@),
            k <= n,
            out@ == join_with(ps.subrange(k as int, n as int).reverse(), '.'),
        decreases k,
    {
        let ghost before = ps.subrange(k as int, n as int).reverse();
        k = k - 1;
        let ghost after = ps.subrange(k as int, n as int).reverse();
        assert(after =~= before.push(ps[k as int]));
        assert(after.drop_last() =~= before);
        if k + 1 < n {
            out.push('.');
        } else {
            assert(before.len() == 0);
        }
        assert(parts@[k as int]@ == ps[k as int]);
        append_chars(&mut out, &parts[k]);
    }
    assert(ps.subrange(0, n as int) =~= ps);
    out
}

/// Whether `key` is `q` or a parent of it, both in reversed form.
pub fn label_prefix_exec(key: &[char], q: &[char]) -> (r: bool)
    ensures
        r == label_prefix(key@, q@),
{
    if key.len() == q.len() {
        eq_chars(key, q)
    } else if key.len() < q.len() {
        let b = starts_with_exec(q, key) && q[key.len()] == '.';
        b
    } else {
        false
    }
}

} // verus!
