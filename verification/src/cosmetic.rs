//! Cosmetic filter rules (`##`, `#@#`, `##+js(...)`) and the per-host
//! injection bundle built from them.
//!
//! Lookup semantics: given host `ads.news.example.com`, rules are collected
//! from the global rules, then the buckets of `example.com`,
//! `news.example.com` and `ads.news.example.com`; exceptions at every level are
//! subtracted, and negated-domain rules that exclude the host are dropped.
use vstd::prelude::*;
use vstd::pervasive::VecAdditionalExecFns;
use crate::js::{bundle_js, compile_bundle};
use crate::domain::append_chars;
use crate::tree::lemma_concat_contains;
use crate::text::{
    chars_of, contains_char, ends_with, ends_with_exec, find_exec, join_with, strip_both, strip_both_exec, TrimSet, find_seq, lower_chars, split_char, split_vec, starts_with,
    starts_with_exec, string_of, subvec, to_lowercase, trim, trim_exec, views_of,
};

verus! {

// ── Parsed rules ─────────────────────────────────────────────────────────────

/// One cosmetic filter line, parsed.
#[derive(Debug, PartialEq)]
pub enum ParsedCosmeticRule {
    /// `##selector` — no domain prefix
    GlobalCss { selector: String },
    /// `#@#selector` — global exception
    GlobalException { selector: String },
    /// `domain1,domain2##selector`
    DomainCss { domains: Vec<String>, selector: String },
    /// `domain1,domain2#@#selector`
    DomainException { domains: Vec<String>, selector: String },
    /// `~domain##selector` — applies globally except on listed domains
    NegatedDomainCss { excluded_domains: Vec<String>, selector: String },
    /// `domain##+js(payload)`
    Scriptlet { domains: Vec<String>, payload: String },
}

/// A parsed cosmetic rule as plain values.
pub enum CosmeticView {
    GlobalCss { selector: Seq<char> },
    GlobalException { selector: Seq<char> },
    DomainCss { domains: Seq<Seq<char>>, selector: Seq<char> },
    DomainException { domains: Seq<Seq<char>>, selector: Seq<char> },
    NegatedDomainCss { excluded_domains: Seq<Seq<char>>, selector: Seq<char> },
    Scriptlet { domains: Seq<Seq<char>>, payload: Seq<char> },
}

impl View for ParsedCosmeticRule {
    type V = CosmeticView;

    open spec fn view(&self) -> CosmeticView {
        match self {
            ParsedCosmeticRule::GlobalCss { selector } => CosmeticView::GlobalCss { selector: selector@ },
            ParsedCosmeticRule::GlobalException { selector } => CosmeticView::GlobalException {
                selector: selector@,
            },
            ParsedCosmeticRule::DomainCss { domains, selector } => CosmeticView::DomainCss {
                domains: domains.deep_view(),
                selector: selector@,
            },
            ParsedCosmeticRule::DomainException { domains, selector } => CosmeticView::DomainException {
                domains: domains.deep_view(),
                selector: selector@,
            },
            ParsedCosmeticRule::NegatedDomainCss { excluded_domains, selector } =>
                CosmeticView::NegatedDomainCss {
                excluded_domains: excluded_domains.deep_view(),
                selector: selector@,
            },
            ParsedCosmeticRule::Scriptlet { domains, payload } => CosmeticView::Scriptlet {
                domains: domains.deep_view(),
                payload: payload@,
            },
        }
    }
}

/// `line` split at its cosmetic separator: the first `#@#` if there is one,
/// else the first `##`; the flag tells whether it was `#@#`.
pub open spec fn cosmetic_separator(line: Seq<char>) -> Option<(Seq<char>, bool, Seq<char>)> {
    let e = find_seq(line, "#@#"@);
    let h = find_seq(line, "##"@);
    if e >= 0 {
        Some((line.take(e), true, line.skip(e + 3)))
    } else if h >= 0 {
        Some((line.take(h), false, line.skip(h + 2)))
    } else {
        None
    }
}

/// The trimmed, non-empty pieces of `parts`, in order.
pub open spec fn nonempty_trimmed(parts: Seq<Seq<char>>) -> Seq<Seq<char>>
    decreases parts.len(),
{
    if parts.len() == 0 {
        Seq::empty()
    } else if trim(parts.last()).len() > 0 {
        nonempty_trimmed(parts.drop_last()).push(trim(parts.last()))
    } else {
        nonempty_trimmed(parts.drop_last())
    }
}

pub open spec fn has_tilde(d: Seq<char>) -> bool {
    d.len() > 0 && d[0] == '~'
}

/// `d` without a leading `~`.
pub open spec fn strip_tilde(d: Seq<char>) -> Seq<char> {
    if has_tilde(d) {
        d.drop_first()
    } else {
        d
    }
}

/// The entries of `ds` without a leading `~`, in order.
pub open spec fn plain_entries(ds: Seq<Seq<char>>) -> Seq<Seq<char>>
    decreases ds.len(),
{
    if ds.len() == 0 {
        Seq::empty()
    } else if has_tilde(ds.last()) {
        plain_entries(ds.drop_last())
    } else {
        plain_entries(ds.drop_last()).push(ds.last())
    }
}

/// The entries of `ds` with a leading `~`, the `~` removed, in order.
pub open spec fn negated_entries(ds: Seq<Seq<char>>) -> Seq<Seq<char>>
    decreases ds.len(),
{
    if ds.len() == 0 {
        Seq::empty()
    } else if has_tilde(ds.last()) {
        negated_entries(ds.drop_last()).push(ds.last().drop_first())
    } else {
        negated_entries(ds.drop_last())
    }
}

/// Each entry lower-cased.
pub open spec fn lower_all(ds: Seq<Seq<char>>) -> Seq<Seq<char>> {
    ds.map_values(|d: Seq<char>| lower_chars(d))
}

/// A comma-separated domain list: the trimmed non-empty entries, provided
/// there is one and every entry (without its `~`) contains a dot.
pub open spec fn domain_list(s: Seq<char>) -> Option<Seq<Seq<char>>> {
    let ds = nonempty_trimmed(split_char(s, ','));
    if ds.len() == 0 {
        None
    } else if exists|i: int| 0 <= i < ds.len() && !strip_tilde(#[trigger] ds[i]).contains('.') {
        None
    } else {
        Some(ds)
    }
}

/// What `parse_cosmetic_line` gives for a line.
pub open spec fn parse_cosmetic(line: Seq<char>) -> Option<CosmeticView> {
    match cosmetic_separator(line) {
        None => None,
        Some((before, is_exc, after)) => {
            let sel = trim(after);
            if sel.len() == 0 {
                None
            } else if !is_exc && starts_with(sel, "+js("@) && sel.last() == ')' {
                let payload = trim(sel.subrange(4, sel.len() - 1));
                if payload.len() == 0 || before.len() == 0 {
                    None
                } else {
                    match domain_list(before) {
                        None => None,
                        Some(ds) => if plain_entries(ds).len() == 0 {
                            None
                        } else {
                            Some(CosmeticView::Scriptlet { domains: plain_entries(ds), payload })
                        },
                    }
                }
            } else if before.len() == 0 {
                if is_exc {
                    Some(CosmeticView::GlobalException { selector: sel })
                } else {
                    Some(CosmeticView::GlobalCss { selector: sel })
                }
            } else {
                match domain_list(before) {
                    None => None,
                    Some(raw) => {
                        let positive = lower_all(plain_entries(raw));
                        let negated = lower_all(negated_entries(raw));
                        if is_exc {
                            if positive.len() == 0 {
                                None
                            } else {
                                Some(CosmeticView::DomainException { domains: positive, selector: sel })
                            }
                        } else if positive.len() > 0 {
                            Some(CosmeticView::DomainCss { domains: positive, selector: sel })
                        } else if negated.len() > 0 {
                            Some(CosmeticView::NegatedDomainCss { excluded_domains: negated, selector: sel })
                        } else {
                            None
                        }
                    },
                }
            }
        },
    }
}

/// Finds the cosmetic separator (`#@#` first, then `##`).
fn find_cosmetic_separator(line: &[char]) -> (r: Option<(Vec<char>, bool, Vec<char>)>)
    ensures
        match r {
            Some((b, e, a)) => cosmetic_separator(line@) == Some((b@, e, a@)),
            None => cosmetic_separator(line@) is None,
        },
{
    let exc = chars_of("#@#");
    let hide = chars_of("##");
    proof {
        crate::text::lemma_find_seq(line@, exc@);
        crate::text::lemma_find_seq(line@, hide@);
    }
    let n = line.len();
    match find_exec(line, &exc) {
        Some(pos) => {
            proof {
                reveal_strlit("#@#");
            }
            let b = subvec(line, 0, pos);
            let a = subvec(line, pos + 3, n);
            assert(b@ =~= line@.take(pos as int));
            assert(a@ =~= line@.skip(pos + 3));
            Some((b, true, a))
        },
        None => match find_exec(line, &hide) {
            Some(pos) => {
                proof {
                    reveal_strlit("##");
                }
                let b = subvec(line, 0, pos);
                let a = subvec(line, pos + 2, n);
                assert(b@ =~= line@.take(pos as int));
                assert(a@ =~= line@.skip(pos + 2));
                Some((b, false, a))
            },
            None => None,
        },
    }
}

/// Parses a comma-separated domain list. `None` if it is empty or an entry
/// (without its `~`) lacks a dot. Keeps `~` prefixes and case.
fn parse_domain_list(s: &[char]) -> (r: Option<Vec<Vec<char>>>)
    ensures
        match r {
            Some(ds) => domain_list(s@) == Some(views_of(ds@)),
            None => domain_list(s@) is None,
        },
{
    let parts = split_vec(s, ',');
    let ghost pv = views_of(parts@);
    let n = parts.len();
    let mut ds: Vec<Vec<char>> = Vec::new();
    let mut i: usize = 0;
    while i < n
        invariant
            n == pv.len(),
            pv == views_of(parts@),
            i <= n,
            views_of(ds@) == nonempty_trimmed(pv.take(i as int)),
        decreases n - i,
    {
        let t = trim_exec(&parts[i]);
        proof {
            assert(pv.take(i + 1).drop_last() =~= pv.take(i as int));
            assert(pv.take(i + 1).last() == parts@[i as int]@);
        }
        if t.len() > 0 {
            let ghost before = views_of(ds@);
            ds.push(t);
            assert(views_of(ds@) =~= before.push(t@));
        }
        i = i + 1;
    }
    assert(pv.take(n as int) =~= pv);
    let ghost dv = views_of(ds@);
    if ds.len() == 0 {
        return None;
    }
    let m = ds.len();
    let mut j: usize = 0;
    while j < m
        invariant
            m == dv.len(),
            dv == views_of(ds@),
            dv == nonempty_trimmed(split_char(s@, ',')),
            j <= m,
            forall|k: int| 0 <= k < j ==> strip_tilde(#[trigger] dv[k]).contains('.'),
        decreases m - j,
    {
        let d = &ds[j];
        assert(d@ == dv[j as int]);
        let bare = if d.len() > 0 && d[0] == '~' {
            let b = subvec(d, 1, d.len());
            assert(b@ =~= d@.drop_first());
            b
        } else {
            subvec(d, 0, d.len())
        };
        assert(bare@ =~= strip_tilde(dv[j as int]));
        if !contains_char(&bare, '.') {
            proof {
                assert(dv == nonempty_trimmed(split_char(s@, ',')));
                assert(!strip_tilde(dv[j as int]).contains('.'));
            }
            return None;
        }
        j = j + 1;
    }
    Some(ds)
}

/// The entries without `~`, as strings, optionally lower-cased.
fn plain_strings(ds: &Vec<Vec<char>>, lower: bool) -> (r: Vec<String>)
    ensures
        r.deep_view() == if lower { lower_all(plain_entries(views_of(ds@))) } else { plain_entries(views_of(ds@)) },
{
    let ghost dv = views_of(ds@);
    let n = ds.len();
    let mut out: Vec<String> = Vec::new();
    let mut i: usize = 0;
    while i < n
        invariant
            n == dv.len(),
            dv == views_of(ds@),
            i <= n,
            out.deep_view() == if lower { lower_all(plain_entries(dv.take(i as int))) } else { plain_entries(dv.take(i as int)) },
        decreases n - i,
    {
        let d = &ds[i];
        proof {
            assert(dv.take(i + 1).drop_last() =~= dv.take(i as int));
            assert(dv.take(i + 1).last() == d@);
        }
        if !(d.len() > 0 && d[0] == '~') {
            let s = if lower { string_of(&to_lowercase(d)) } else { string_of(d) };
            let ghost before = out.deep_view();
            out.push(s);
            assert(out.deep_view() =~= before.push(s@));
            assert(lower_all(plain_entries(dv.take(i + 1))) =~= lower_all(plain_entries(dv.take(i as int))).push(lower_chars(d@)));
        }
        i = i + 1;
    }
    assert(dv.take(n as int) =~= dv);
    out
}

/// The `~` entries, the `~` removed, lower-cased, as strings.
fn negated_strings(ds: &Vec<Vec<char>>) -> (r: Vec<String>)
    ensures
        r.deep_view() == lower_all(negated_entries(views_of(ds@))),
{
    let ghost dv = views_of(ds@);
    let n = ds.len();
    let mut out: Vec<String> = Vec::new();
    let mut i: usize = 0;
    while i < n
        invariant
            n == dv.len(),
            dv == views_of(ds@),
            i <= n,
            out.deep_view() == lower_all(negated_entries(dv.take(i as int))),
        decreases n - i,
    {
        let d = &ds[i];
        proof {
            assert(dv.take(i + 1).drop_last() =~= dv.take(i as int));
            assert(dv.take(i + 1).last() == d@);
        }
        if d.len() > 0 && d[0] == '~' {
            let bare = subvec(d, 1, d.len());
            assert(bare@ =~= d@.drop_first());
            let s = string_of(&to_lowercase(&bare));
            let ghost before = out.deep_view();
            out.push(s);
            assert(out.deep_view() =~= before.push(s@));
            assert(lower_all(negated_entries(dv.take(i + 1))) =~= lower_all(negated_entries(dv.take(i as int))).push(lower_chars(bare@)));
        }
        i = i + 1;
    }
    assert(dv.take(n as int) =~= dv);
    out
}

/// Parses one filter list line into a cosmetic rule; `None` for
/// non-cosmetic lines and malformed rules.
pub fn parse_cosmetic_line(line: &str) -> (r: Option<ParsedCosmeticRule>)
    ensures
        match r {
            Some(rule) => parse_cosmetic(line@) == Some(rule@),
            None => parse_cosmetic(line@) is None,
        },
{
    let lc = chars_of(line);
    let (before, is_exc, after) = match find_cosmetic_separator(&lc) {
        Some(t) => t,
        None => return None,
    };
    let sel = trim_exec(&after);
    if sel.len() == 0 {
        return None;
    }
    let js_open = chars_of("+js(");
    proof {
        reveal_strlit("+js(");
    }
    if !is_exc && starts_with_exec(&sel, &js_open) && sel[sel.len() - 1] == ')' {
        proof {
            assert(sel@.take(4) == js_open@);
            if sel@.len() == 4 {
                assert(sel@ =~= sel@.take(4));
                assert(sel@[3] == '(');
            }
        }
        let inner = subvec(&sel, 4, sel.len() - 1);
        let payload = trim_exec(&inner);
        if payload.len() == 0 || before.len() == 0 {
            return None;
        }
        let ds = match parse_domain_list(&before) {
            Some(ds) => ds,
            None => return None,
        };
        let positive = plain_strings(&ds, false);
        if positive.len() == 0 {
            return None;
        }
        return Some(ParsedCosmeticRule::Scriptlet { domains: positive, payload: string_of(&payload) });
    }
    let selector = string_of(&sel);
    if before.len() == 0 {
        return Some(
            if is_exc {
                ParsedCosmeticRule::GlobalException { selector }
            } else {
                ParsedCosmeticRule::GlobalCss { selector }
            },
        );
    }
    let raw = match parse_domain_list(&before) {
        Some(ds) => ds,
        None => return None,
    };
    let positive = plain_strings(&raw, true);
    let negated = negated_strings(&raw);
    if is_exc {
        if positive.len() == 0 {
            return None;
        }
        Some(ParsedCosmeticRule::DomainException { domains: positive, selector })
    } else if positive.len() > 0 {
        // Mixed positive and negated entries count as domain-specific; the
        // negated entries are ignored.
        Some(ParsedCosmeticRule::DomainCss { domains: positive, selector })
    } else if negated.len() > 0 {
        Some(ParsedCosmeticRule::NegatedDomainCss { excluded_domains: negated, selector })
    } else {
        None
    }
}


// ── Engine ───────────────────────────────────────────────────────────────────

/// All rules attached to a single domain key.
#[derive(Debug, Clone)]
pub struct DomainBucket {
    /// CSS selectors to hide on this domain (from `##`).
    pub css: Vec<String>,
    /// CSS selectors to un-hide on this domain (from `#@#`); these override
    /// `##` rules from any level.
    pub exceptions: Vec<String>,
    /// Raw scriptlet calls for this domain (from `##+js`), e.g.
    /// `set-constant, adblock, false`.
    pub scriptlets: Vec<String>,
}

/// A bucket as plain values.
pub struct BucketView {
    pub css: Seq<Seq<char>>,
    pub exceptions: Seq<Seq<char>>,
    pub scriptlets: Seq<Seq<char>>,
}

impl View for DomainBucket {
    type V = BucketView;

    open spec fn view(&self) -> BucketView {
        BucketView {
            css: self.css.deep_view(),
            exceptions: self.exceptions.deep_view(),
            scriptlets: self.scriptlets.deep_view(),
        }
    }
}

pub open spec fn empty_bucket() -> BucketView {
    BucketView { css: Seq::empty(), exceptions: Seq::empty(), scriptlets: Seq::empty() }
}

impl Default for DomainBucket {
    fn default() -> (b: Self)
        ensures
            b@ == empty_bucket(),
    {
        let b = DomainBucket { css: Vec::new(), exceptions: Vec::new(), scriptlets: Vec::new() };
        assert(b@ =~= empty_bucket()) by {
            assert(b.css.deep_view() =~= Seq::<Seq<char>>::empty());
            assert(b.exceptions.deep_view() =~= Seq::<Seq<char>>::empty());
            assert(b.scriptlets.deep_view() =~= Seq::<Seq<char>>::empty());
        }
        b
    }
}

impl DomainBucket {
    pub fn is_empty(&self) -> (r: bool)
        ensures
            r == (self@.css.len() == 0 && self@.exceptions.len() == 0 && self@.scriptlets.len() == 0),
    {
        self.css.len() == 0 && self.exceptions.len() == 0 && self.scriptlets.len() == 0
    }
}

/// `##.selector` that applies globally except on specific domains
/// (source form `~news.com##.ad`).
#[derive(Debug, Clone)]
struct NegatedRule {
    selector: String,
    /// Domains where this rule must not apply.
    excluded_domains: Vec<String>,
}

pub struct NegatedView {
    pub selector: Seq<char>,
    pub excluded_domains: Seq<Seq<char>>,
}

impl View for NegatedRule {
    type V = NegatedView;

    closed spec fn view(&self) -> NegatedView {
        NegatedView { selector: self.selector@, excluded_domains: self.excluded_domains.deep_view() }
    }
}

/// Stores cosmetic rules and compiles per-host injection bundles.
pub struct CosmeticEngine {
    /// Global CSS rules (`##` with no domain prefix), applied on every page.
    global_css: Vec<String>,
    /// Global exceptions (`#@#` with no domain prefix), each held once.
    global_exceptions: Vec<String>,
    /// Per-domain buckets, keyed by the plain domain string.
    domains: Vec<(String, DomainBucket)>,
    /// Global rules with domain exclusions (`~domain##.selector`).
    negated: Vec<NegatedRule>,
}

/// The engine's rules as plain values.
pub struct EngineView {
    pub global_css: Seq<Seq<char>>,
    pub global_exceptions: Seq<Seq<char>>,
    pub domains: Seq<(Seq<char>, BucketView)>,
    pub negated: Seq<NegatedView>,
}

impl View for CosmeticEngine {
    type V = EngineView;

    closed spec fn view(&self) -> EngineView {
        EngineView {
            global_css: self.global_css.deep_view(),
            global_exceptions: self.global_exceptions.deep_view(),
            domains: self.domains@.map_values(|p: (String, DomainBucket)| (p.0@, p.1@)),
            negated: self.negated@.map_values(|r: NegatedRule| r@),
        }
    }
}

/// Index of the first bucket keyed `k`, or -1.
pub open spec fn find_key(ds: Seq<(Seq<char>, BucketView)>, k: Seq<char>) -> int
    decreases ds.len(),
{
    if ds.len() == 0 {
        -1
    } else if ds[0].0 == k {
        0
    } else if find_key(ds.drop_first(), k) < 0 {
        -1
    } else {
        find_key(ds.drop_first(), k) + 1
    }
}

proof fn lemma_find_key(ds: Seq<(Seq<char>, BucketView)>, k: Seq<char>)
    ensures
        -1 <= find_key(ds, k) < ds.len(),
        find_key(ds, k) >= 0 ==> ds[find_key(ds, k)].0 == k,
        forall|j: int| 0 <= j < find_key(ds, k) ==> ds[j].0 != k,
        find_key(ds, k) == -1 ==> forall|j: int| 0 <= j < ds.len() ==> ds[j].0 != k,
    decreases ds.len(),
{
    if ds.len() > 0 && ds[0].0 != k {
        lemma_find_key(ds.drop_first(), k);
        assert forall|j: int| 0 < j < ds.len() implies ds[j] == ds.drop_first()[j - 1] by {}
    }
}

proof fn lemma_find_key_is(ds: Seq<(Seq<char>, BucketView)>, k: Seq<char>, i: int)
    requires
        i == -1 ==> forall|j: int| 0 <= j < ds.len() ==> ds[j].0 != k,
        i >= 0 ==> i < ds.len() && ds[i].0 == k && forall|j: int| 0 <= j < i ==> ds[j].0 != k,
        i >= -1,
    ensures
        find_key(ds, k) == i,
{
    lemma_find_key(ds, k);
    let f = find_key(ds, k);
    if f >= 0 && i >= 0 {
        if f < i {
            assert(ds[f].0 != k);
        } else if f > i {
            assert(ds[i].0 != k);
        }
    } else if f >= 0 && i == -1 {
        assert(ds[f].0 != k);
    } else if f == -1 && i >= 0 {
        assert(ds[i].0 != k);
    }
}

/// The bucket keyed `k`, if there is one.
pub open spec fn bucket_of(ds: Seq<(Seq<char>, BucketView)>, k: Seq<char>) -> Option<BucketView> {
    if find_key(ds, k) >= 0 {
        Some(ds[find_key(ds, k)].1)
    } else {
        None
    }
}

/// Which list of a bucket a rule goes to.
pub enum BucketPart {
    Css,
    Exceptions,
    Scriptlets,
}

pub open spec fn push_part(b: BucketView, part: BucketPart, x: Seq<char>) -> BucketView {
    match part {
        BucketPart::Css => BucketView { css: b.css.push(x), ..b },
        BucketPart::Exceptions => BucketView { exceptions: b.exceptions.push(x), ..b },
        BucketPart::Scriptlets => BucketView { scriptlets: b.scriptlets.push(x), ..b },
    }
}

/// `x` appended to the `part` list of the bucket keyed `k` (a new bucket is
/// added at the end when there is none).
pub open spec fn add_to_bucket(ds: Seq<(Seq<char>, BucketView)>, k: Seq<char>, part: BucketPart, x: Seq<char>) -> Seq<(Seq<char>, BucketView)> {
    let i = find_key(ds, k);
    if i >= 0 {
        ds.update(i, (k, push_part(ds[i].1, part, x)))
    } else {
        ds.push((k, push_part(empty_bucket(), part, x)))
    }
}

/// `x` added to the buckets of every key of `keys`, in order.
pub open spec fn add_to_buckets(ds: Seq<(Seq<char>, BucketView)>, keys: Seq<Seq<char>>, part: BucketPart, x: Seq<char>) -> Seq<(Seq<char>, BucketView)>
    decreases keys.len(),
{
    if keys.len() == 0 {
        ds
    } else {
        add_to_bucket(add_to_buckets(ds, keys.drop_last(), part, x), keys.last(), part, x)
    }
}

/// Index of the first negated rule with selector `sel`, or -1.
pub open spec fn find_negated(ns: Seq<NegatedView>, sel: Seq<char>) -> int
    decreases ns.len(),
{
    if ns.len() == 0 {
        -1
    } else if ns[0].selector == sel {
        0
    } else if find_negated(ns.drop_first(), sel) < 0 {
        -1
    } else {
        find_negated(ns.drop_first(), sel) + 1
    }
}

proof fn lemma_find_negated(ns: Seq<NegatedView>, sel: Seq<char>)
    ensures
        -1 <= find_negated(ns, sel) < ns.len(),
        find_negated(ns, sel) >= 0 ==> ns[find_negated(ns, sel)].selector == sel,
        forall|j: int| 0 <= j < find_negated(ns, sel) ==> ns[j].selector != sel,
        find_negated(ns, sel) == -1 ==> forall|j: int| 0 <= j < ns.len() ==> ns[j].selector != sel,
    decreases ns.len(),
{
    if ns.len() > 0 && ns[0].selector != sel {
        lemma_find_negated(ns.drop_first(), sel);
        assert forall|j: int| 0 < j < ns.len() implies ns[j] == ns.drop_first()[j - 1] by {}
    }
}

proof fn lemma_find_negated_is(ns: Seq<NegatedView>, sel: Seq<char>, i: int)
    requires
        i == -1 ==> forall|j: int| 0 <= j < ns.len() ==> ns[j].selector != sel,
        i >= 0 ==> i < ns.len() && ns[i].selector == sel && forall|j: int| 0 <= j < i ==> ns[j].selector != sel,
        i >= -1,
    ensures
        find_negated(ns, sel) == i,
{
    lemma_find_negated(ns, sel);
    let f = find_negated(ns, sel);
    if f >= 0 && i >= 0 {
        if f < i {
            assert(ns[f].selector != sel);
        } else if f > i {
            assert(ns[i].selector != sel);
        }
    } else if f >= 0 && i == -1 {
        assert(ns[f].selector != sel);
    } else if f == -1 && i >= 0 {
        assert(ns[i].selector != sel);
    }
}

/// `extra` appended to `existing`, skipping entries already present.
pub open spec fn merge_new(existing: Seq<Seq<char>>, extra: Seq<Seq<char>>) -> Seq<Seq<char>>
    decreases extra.len(),
{
    if extra.len() == 0 {
        existing
    } else {
        let m = merge_new(existing, extra.drop_last());
        if m.contains(extra.last()) {
            m
        } else {
            m.push(extra.last())
        }
    }
}

/// `v` with its buckets replaced by `ds`.
pub open spec fn with_domains(v: EngineView, ds: Seq<(Seq<char>, BucketView)>) -> EngineView {
    EngineView { domains: ds, ..v }
}

/// `v` with its negated rules replaced by `ns`.
pub open spec fn with_negated(v: EngineView, ns: Seq<NegatedView>) -> EngineView {
    EngineView { negated: ns, ..v }
}

/// The negated rules after taking in `selector` with its excluded domains:
/// the exclusions are merged into the first rule with that selector, or a
/// new rule is appended.
pub open spec fn add_negated_rule(ns: Seq<NegatedView>, selector: Seq<char>, excluded: Seq<Seq<char>>) -> Seq<NegatedView> {
    let i = find_negated(ns, selector);
    if i >= 0 {
        ns.update(i, NegatedView { selector, excluded_domains: merge_new(ns[i].excluded_domains, excluded) })
    } else {
        ns.push(NegatedView { selector, excluded_domains: excluded })
    }
}

/// The engine after taking in one parsed rule.
pub open spec fn apply_rule(v: EngineView, r: CosmeticView) -> EngineView {
    match r {
        CosmeticView::GlobalCss { selector } => EngineView { global_css: v.global_css.push(selector), ..v },
        CosmeticView::GlobalException { selector } => if v.global_exceptions.contains(selector) {
            v
        } else {
            EngineView { global_exceptions: v.global_exceptions.push(selector), ..v }
        },
        CosmeticView::DomainCss { domains, selector } => EngineView {
            domains: add_to_buckets(v.domains, domains, BucketPart::Css, selector),
            ..v
        },
        CosmeticView::DomainException { domains, selector } => EngineView {
            domains: add_to_buckets(v.domains, domains, BucketPart::Exceptions, selector),
            ..v
        },
        CosmeticView::Scriptlet { domains, payload } => EngineView {
            domains: add_to_buckets(v.domains, domains, BucketPart::Scriptlets, payload),
            ..v
        },
        CosmeticView::NegatedDomainCss { excluded_domains, selector } => with_negated(
            v,
            add_negated_rule(v.negated, selector, excluded_domains),
        ),
    }
}


// ── Host matching and suffixes ───────────────────────────────────────────────

/// `host` is `d` or a subdomain of it.
pub open spec fn label_suffix(d: Seq<char>, host: Seq<char>) -> bool {
    host == d || (d.len() < host.len() && ends_with(host, d) && host[host.len() - d.len() - 1] == '.')
}

/// `host` is one of `domains` or a subdomain of one.
pub open spec fn host_in_domains(host: Seq<char>, domains: Seq<Seq<char>>) -> bool {
    exists|i: int| 0 <= i < domains.len() && label_suffix(#[trigger] domains[i], host)
}

/// Returns true if `host` matches any domain in the list (exact or subdomain).
pub fn host_matches_any(host: &str, domains: &Vec<String>) -> (r: bool)
    ensures
        r == host_in_domains(host@, domains.deep_view()),
{
    let h = chars_of(host);
    host_matches_any_chars(&h, domains)
}

fn host_matches_any_chars(h: &[char], domains: &Vec<String>) -> (r: bool)
    ensures
        r == host_in_domains(h@, domains.deep_view()),
{
    let hl = h.len();
    let n = domains.len();
    let mut i: usize = 0;
    while i < n
        invariant
            n == domains@.len(),
            hl == h@.len(),
            i <= n,
            forall|j: int| 0 <= j < i ==> !label_suffix(#[trigger] domains.deep_view()[j], h@),
        decreases n - i,
    {
        let d = chars_of(domains[i].as_str());
        assert(d@ == domains.deep_view()[i as int]);
        if crate::text::eq_chars(h, &d) {
            return true;
        }
        if d.len() < hl && ends_with_exec(h, &d) && h[hl - d.len() - 1] == '.' {
            return true;
        }
        i = i + 1;
    }
    false
}

/// Each suffix of `host` with at least two labels, from the most general
/// to the most specific: `ads.news.example.com` gives `example.com`,
/// `news.example.com`, `ads.news.example.com`.
pub open spec fn suffix_chain(host: Seq<char>) -> Seq<Seq<char>> {
    let parts = split_char(host, '.');
    if parts.len() < 2 {
        Seq::empty()
    } else {
        Seq::new((parts.len() - 1) as nat, |k: int| join_with(parts.skip(parts.len() - 2 - k), '.'))
    }
}

/// The pieces `parts[from..]` joined with dots.
fn join_from(parts: &Vec<Vec<char>>, from: usize) -> (r: Vec<char>)
    requires
        from < parts@.len(),
    ensures
        r@ == join_with(views_of(parts@).skip(from as int), '.'),
{
    let ghost pv = views_of(parts@);
    let n = parts.len();
    let mut out: Vec<char> = Vec::new();
    append_chars(&mut out, &parts[from]);
    assert(pv.subrange(from as int, from + 1) =~= seq![pv[from as int]]);
    assert(out@ =~= parts@[from as int]@);
    let mut i: usize = from + 1;
    while i < n
        invariant
            n == pv.len(),
            pv == views_of(parts@),
            from < i <= n,
            out@ == join_with(pv.subrange(from as int, i as int), '.'),
        decreases n - i,
    {
        out.push('.');
        append_chars(&mut out, &parts[i]);
        assert(pv.subrange(from as int, i + 1).drop_last() =~= pv.subrange(from as int, i as int));
        assert(pv.subrange(from as int, i + 1).last() == parts@[i as int]@);
        i = i + 1;
    }
    assert(pv.subrange(from as int, n as int) =~= pv.skip(from as int));
    out
}

fn suffix_chain_chars(host: &[char]) -> (r: Vec<Vec<char>>)
    ensures
        views_of(r@) == suffix_chain(host@),
{
    let parts = split_vec(host, '.');
    let ghost pv = views_of(parts@);
    let len = parts.len();
    let mut out: Vec<Vec<char>> = Vec::new();
    if len < 2 {
        assert(views_of(out@) =~= suffix_chain(host@));
        return out;
    }
    let mut k: usize = 0;
    while k < len - 1
        invariant
            len == pv.len() >= 2,
            pv == views_of(parts@),
            pv == split_char(host@, '.'),
            k <= len - 1,
            views_of(out@) =~= Seq::new(k as nat, |j: int| join_with(pv.skip(pv.len() - 2 - j), '.')),
        decreases len - 1 - k,
    {
        let sfx = join_from(&parts, len - 2 - k);
        let ghost before = views_of(out@);
        out.push(sfx);
        assert(views_of(out@) =~= before.push(sfx@));
        k = k + 1;
    }
    out
}

/// The suffix chain of `host` (see `suffix_chain`).
pub fn domain_suffixes(host: &str) -> (r: Vec<String>)
    ensures
        r.deep_view() == suffix_chain(host@),
{
    let h = chars_of(host);
    let sfx = suffix_chain_chars(&h);
    let ghost sv = views_of(sfx@);
    let n = sfx.len();
    let mut out: Vec<String> = Vec::new();
    let mut i: usize = 0;
    while i < n
        invariant
            n == sv.len(),
            sv == views_of(sfx@),
            i <= n,
            out.deep_view() =~= sv.take(i as int),
        decreases n - i,
    {
        let s = string_of(&sfx[i]);
        let ghost before = out.deep_view();
        out.push(s);
        assert(out.deep_view() =~= before.push(s@));
        assert(sv.take(i + 1) =~= sv.take(i as int).push(sv[i as int]));
        i = i + 1;
    }
    assert(sv.take(n as int) =~= sv);
    out
}

// ── Bundle selection ─────────────────────────────────────────────────────────

/// The host a bundle is built for, from the lower-cased host: surrounding
/// dots removed.
pub open spec fn bundle_host(lowered: Seq<char>) -> Seq<char> {
    strip_both(lowered, TrimSet::Only('.'))
}

/// The exceptions of the buckets of the suffixes, in order.
pub open spec fn suffix_exceptions(ds: Seq<(Seq<char>, BucketView)>, sfx: Seq<Seq<char>>) -> Seq<Seq<char>>
    decreases sfx.len(),
{
    if sfx.len() == 0 {
        Seq::empty()
    } else {
        suffix_exceptions(ds, sfx.drop_last()) + match bucket_of(ds, sfx.last()) {
            Some(b) => b.exceptions,
            None => Seq::empty(),
        }
    }
}

/// The selectors of `sels` that `exc` does not except, in order.
pub open spec fn unexcepted(sels: Seq<Seq<char>>, exc: Seq<Seq<char>>) -> Seq<Seq<char>>
    decreases sels.len(),
{
    if sels.len() == 0 {
        Seq::empty()
    } else if exc.contains(sels.last()) {
        unexcepted(sels.drop_last(), exc)
    } else {
        unexcepted(sels.drop_last(), exc).push(sels.last())
    }
}

/// The selectors of negated rules that apply on `host`.
pub open spec fn negated_css(ns: Seq<NegatedView>, exc: Seq<Seq<char>>, host: Seq<char>) -> Seq<Seq<char>>
    decreases ns.len(),
{
    if ns.len() == 0 {
        Seq::empty()
    } else if !exc.contains(ns.last().selector) && !host_in_domains(host, ns.last().excluded_domains) {
        negated_css(ns.drop_last(), exc, host).push(ns.last().selector)
    } else {
        negated_css(ns.drop_last(), exc, host)
    }
}

/// The unexcepted CSS selectors of the suffixes' buckets, in order.
pub open spec fn suffix_css(ds: Seq<(Seq<char>, BucketView)>, sfx: Seq<Seq<char>>, exc: Seq<Seq<char>>) -> Seq<Seq<char>>
    decreases sfx.len(),
{
    if sfx.len() == 0 {
        Seq::empty()
    } else {
        suffix_css(ds, sfx.drop_last(), exc) + match bucket_of(ds, sfx.last()) {
            Some(b) => unexcepted(b.css, exc),
            None => Seq::empty(),
        }
    }
}

/// The scriptlets of the suffixes' buckets, in order.
pub open spec fn suffix_scripts(ds: Seq<(Seq<char>, BucketView)>, sfx: Seq<Seq<char>>) -> Seq<Seq<char>>
    decreases sfx.len(),
{
    if sfx.len() == 0 {
        Seq::empty()
    } else {
        suffix_scripts(ds, sfx.drop_last()) + match bucket_of(ds, sfx.last()) {
            Some(b) => b.scriptlets,
            None => Seq::empty(),
        }
    }
}

/// The exceptions active on a host: the global ones and those of the
/// buckets of its suffixes.
pub open spec fn active_exceptions(v: EngineView, host: Seq<char>) -> Seq<Seq<char>> {
    v.global_exceptions + suffix_exceptions(v.domains, suffix_chain(host))
}

/// The CSS selectors hidden on a host, in bundle order (before removal of
/// repetitions): global rules, negated rules, then the suffixes' rules from
/// the most general suffix to the most specific; excepted ones left out.
pub open spec fn selected_css(v: EngineView, host: Seq<char>) -> Seq<Seq<char>> {
    let exc = active_exceptions(v, host);
    unexcepted(v.global_css, exc) + negated_css(v.negated, exc, host) + suffix_css(v.domains, suffix_chain(host), exc)
}

/// The scriptlets injected on a host.
pub open spec fn selected_scripts(v: EngineView, host: Seq<char>) -> Seq<Seq<char>> {
    suffix_scripts(v.domains, suffix_chain(host))
}

/// The bundle for a host already lower-cased: empty when no rule applies,
/// else the compiled script.
pub open spec fn bundle_for_lowered(v: EngineView, lowered: Seq<char>) -> Seq<char> {
    let h = bundle_host(lowered);
    let css = selected_css(v, h);
    let scripts = selected_scripts(v, h);
    if css.len() == 0 && scripts.len() == 0 {
        Seq::empty()
    } else {
        bundle_js(css, scripts)
    }
}

/// The bundle for `host` as given: it is lower-cased first.
pub open spec fn bundle_for(v: EngineView, host: Seq<char>) -> Seq<char> {
    bundle_for_lowered(v, lower_chars(host))
}

/// The total number of stored rules in the buckets.
pub open spec fn bucket_rules(ds: Seq<(Seq<char>, BucketView)>) -> nat
    decreases ds.len(),
{
    if ds.len() == 0 {
        0
    } else {
        bucket_rules(ds.drop_last()) + ds.last().1.css.len() + ds.last().1.exceptions.len()
            + ds.last().1.scriptlets.len()
    }
}

/// The number of stored rules: global CSS rules, global exceptions, negated
/// rules and every entry of every bucket.
pub open spec fn rule_total(v: EngineView) -> nat {
    v.global_css.len() + v.global_exceptions.len() + v.negated.len() + bucket_rules(v.domains)
}


// ── Engine operations ────────────────────────────────────────────────────────

pub open spec fn part_of(k: u8) -> BucketPart {
    if k == 0 {
        BucketPart::Css
    } else if k == 1 {
        BucketPart::Exceptions
    } else {
        BucketPart::Scriptlets
    }
}

fn push_to_part(b: &mut DomainBucket, part: u8, x: String)
    ensures
        final(b)@ == push_part(old(b)@, part_of(part), x@),
{
    let ghost old_b = b@;
    if part == 0 {
        b.css.push(x);
        assert(b.css.deep_view() =~= old_b.css.push(x@));
    } else if part == 1 {
        b.exceptions.push(x);
        assert(b.exceptions.deep_view() =~= old_b.exceptions.push(x@));
    } else {
        b.scriptlets.push(x);
        assert(b.scriptlets.deep_view() =~= old_b.scriptlets.push(x@));
    }
    assert(b@ =~= push_part(old_b, part_of(part), x@));
}

/// Clones each string of `v`.
fn clone_strings(v: &Vec<String>) -> (r: Vec<String>)
    ensures
        r.deep_view() == v.deep_view(),
{
    let n = v.len();
    let mut out: Vec<String> = Vec::new();
    let mut i: usize = 0;
    while i < n
        invariant
            n == v@.len(),
            i <= n,
            out.deep_view() =~= v.deep_view().take(i as int),
        decreases n - i,
    {
        let s = v[i].clone();
        let ghost before = out.deep_view();
        out.push(s);
        assert(out.deep_view() =~= before.push(s@));
        assert(v.deep_view().take(i + 1) =~= v.deep_view().take(i as int).push(v.deep_view()[i as int]));
        i = i + 1;
    }
    assert(v.deep_view().take(n as int) =~= v.deep_view());
    out
}

/// Appends every string of `v` to `out`.
fn append_all(out: &mut Vec<String>, v: &Vec<String>)
    ensures
        final(out).deep_view() == old(out).deep_view() + v.deep_view(),
{
    let ghost start = out.deep_view();
    let ghost vv = v.deep_view();
    let n = v.len();
    let mut i: usize = 0;
    while i < n
        invariant
            n == vv.len(),
            vv == v.deep_view(),
            i <= n,
            out.deep_view() =~= start + vv.take(i as int),
        decreases n - i,
    {
        let ghost before = out.deep_view();
        out.push(v[i].clone());
        assert(out.deep_view() =~= before.push(vv[i as int]));
        assert(vv.take(i + 1) =~= vv.take(i as int).push(vv[i as int]));
        i = i + 1;
    }
    assert(vv.take(n as int) =~= vv);
}

/// Appends the strings of `sels` that `exc` does not hold, in order.
fn append_unexcepted(out: &mut Vec<String>, sels: &Vec<String>, exc: &Vec<String>)
    ensures
        final(out).deep_view() == old(out).deep_view() + unexcepted(sels.deep_view(), exc.deep_view()),
{
    let ghost start = out.deep_view();
    let ghost sv = sels.deep_view();
    let ghost ev = exc.deep_view();
    let n = sels.len();
    let mut i: usize = 0;
    assert(unexcepted(sv.take(0), ev) =~= Seq::<Seq<char>>::empty());
    while i < n
        invariant
            n == sv.len(),
            sv == sels.deep_view(),
            ev == exc.deep_view(),
            i <= n,
            out.deep_view() =~= start + unexcepted(sv.take(i as int), ev),
        decreases n - i,
    {
        assert(sv.take(i + 1).drop_last() =~= sv.take(i as int));
        assert(sv.take(i + 1).last() == sv[i as int]);
        if !crate::js::contains_string(exc, &sels[i]) {
            let ghost before = out.deep_view();
            out.push(sels[i].clone());
            assert(out.deep_view() =~= before.push(sv[i as int]));
        }
        i = i + 1;
    }
    assert(sv.take(n as int) =~= sv);
}

/// The position of the first negated rule with selector `sel`.
fn find_negated_pos(negs: &Vec<NegatedRule>, sel: &String) -> (r: Option<usize>)
    ensures
        match r {
            Some(i) => i as int == find_negated(negs@.map_values(|r: NegatedRule| r@), sel@) && i < negs@.len(),
            None => find_negated(negs@.map_values(|r: NegatedRule| r@), sel@) == -1,
        },
{
    let ghost ns = negs@.map_values(|r: NegatedRule| r@);
    let n = negs.len();
    let mut i: usize = 0;
    while i < n
        invariant
            n == ns.len(),
            ns == negs@.map_values(|r: NegatedRule| r@),
            i <= n,
            forall|j: int| 0 <= j < i ==> ns[j].selector != sel@,
        decreases n - i,
    {
        assert(ns[i as int].selector == negs@[i as int].selector@);
        if negs[i].selector == *sel {
            proof {
                lemma_find_negated_is(ns, sel@, i as int);
            }
            return Some(i);
        }
        i = i + 1;
    }
    proof {
        lemma_find_negated_is(ns, sel@, -1);
    }
    None
}

/// Appends the entries of `extra` that `list` does not hold yet, in order.
fn merge_exclusions(list: &mut Vec<String>, extra: &Vec<String>)
    ensures
        final(list).deep_view() == merge_new(old(list).deep_view(), extra.deep_view()),
{
    let ghost start = list.deep_view();
    let ghost ev = extra.deep_view();
    let m = extra.len();
    let mut k: usize = 0;
    assert(merge_new(start, ev.take(0)) == start) by {
        assert(ev.take(0) =~= Seq::<Seq<char>>::empty());
    }
    while k < m
        invariant
            m == ev.len(),
            ev == extra.deep_view(),
            k <= m,
            list.deep_view() == merge_new(start, ev.take(k as int)),
        decreases m - k,
    {
        assert(ev.take(k + 1).drop_last() =~= ev.take(k as int));
        assert(ev.take(k + 1).last() == extra@[k as int]@);
        if !crate::js::contains_string(list, &extra[k]) {
            let ghost before = list.deep_view();
            list.push(extra[k].clone());
            assert(list.deep_view() =~= before.push(extra@[k as int]@));
        }
        k = k + 1;
    }
    assert(ev.take(m as int) =~= ev);
}

/// A bucket holds at least one rule.
pub open spec fn bucket_nonempty(b: BucketView) -> bool {
    b.css.len() + b.exceptions.len() + b.scriptlets.len() > 0
}

/// Every bucket holds at least one rule (buckets are made only to hold one).
pub open spec fn buckets_nonempty(ds: Seq<(Seq<char>, BucketView)>) -> bool {
    forall|i: int| 0 <= i < ds.len() ==> bucket_nonempty(#[trigger] ds[i].1)
}

proof fn lemma_add_to_bucket_nonempty(ds: Seq<(Seq<char>, BucketView)>, k: Seq<char>, part: BucketPart, x: Seq<char>)
    requires
        buckets_nonempty(ds),
    ensures
        buckets_nonempty(add_to_bucket(ds, k, part, x)),
{
    lemma_find_key(ds, k);
    let r = add_to_bucket(ds, k, part, x);
    assert forall|i: int| 0 <= i < r.len() implies bucket_nonempty(#[trigger] r[i].1) by {
        let f = find_key(ds, k);
        if f >= 0 {
            if i != f {
                assert(r[i] == ds[i]);
            }
        } else if i < ds.len() {
            assert(r[i] == ds[i]);
        }
    }
}

proof fn lemma_add_to_buckets_nonempty(ds: Seq<(Seq<char>, BucketView)>, keys: Seq<Seq<char>>, part: BucketPart, x: Seq<char>)
    requires
        buckets_nonempty(ds),
    ensures
        buckets_nonempty(add_to_buckets(ds, keys, part, x)),
    decreases keys.len(),
{
    if keys.len() > 0 {
        lemma_add_to_buckets_nonempty(ds, keys.drop_last(), part, x);
        lemma_add_to_bucket_nonempty(add_to_buckets(ds, keys.drop_last(), part, x), keys.last(), part, x);
    }
}

/// With every bucket holding a rule, there are bucket rules exactly when
/// there are buckets.
proof fn lemma_bucket_rules_positive(ds: Seq<(Seq<char>, BucketView)>)
    requires
        buckets_nonempty(ds),
    ensures
        bucket_rules(ds) == 0 <==> ds.len() == 0,
    decreases ds.len(),
{
    if ds.len() > 0 {
        assert(bucket_nonempty(ds[ds.len() - 1].1));
        assert forall|i: int| 0 <= i < ds.drop_last().len() implies bucket_nonempty(#[trigger] ds.drop_last()[i].1) by {
            assert(ds.drop_last()[i] == ds[i]);
        }
        lemma_bucket_rules_positive(ds.drop_last());
    }
}

impl CosmeticEngine {
    #[verifier::type_invariant]
    spec fn well_formed(self) -> bool {
        buckets_nonempty(self@.domains)
    }
}

impl CosmeticEngine {
    pub fn new() -> (e: Self)
        ensures
            e@.global_css.len() == 0,
            e@.global_exceptions.len() == 0,
            e@.domains.len() == 0,
            e@.negated.len() == 0,
    {
        CosmeticEngine { global_css: Vec::new(), global_exceptions: Vec::new(), domains: Vec::new(), negated: Vec::new() }
    }

    /// Parses and inserts a single cosmetic filter line; returns true if the
    /// line was recognized and inserted.
    pub fn insert_line(&mut self, line: &str) -> (r: bool)
        ensures
            r == parse_cosmetic(line@) is Some,
            final(self)@ == match parse_cosmetic(line@) {
                Some(rule) => apply_rule(old(self)@, rule),
                None => old(self)@,
            },
    {
        match parse_cosmetic_line(line) {
            Some(rule) => {
                self.insert_parsed(rule);
                true
            },
            None => false,
        }
    }

    /// Index of the bucket keyed `key`.
    fn find_bucket(&self, key: &String) -> (r: Option<usize>)
        ensures
            match r {
                Some(i) => i as int == find_key(self@.domains, key@),
                None => find_key(self@.domains, key@) == -1,
            },
    {
        let ghost dv = self@.domains;
        let n = self.domains.len();
        let mut i: usize = 0;
        while i < n
            invariant
                n == dv.len(),
                dv == self@.domains,
                i <= n,
                forall|j: int| 0 <= j < i ==> dv[j].0 != key@,
            decreases n - i,
        {
            assert(dv[i as int].0 == self.domains@[i as int].0@);
            if self.domains[i].0 == *key {
                proof {
                    lemma_find_key_is(dv, key@, i as int);
                }
                return Some(i);
            }
            i = i + 1;
        }
        proof {
            lemma_find_key_is(dv, key@, -1);
        }
        None
    }

    /// Appends `x` to the `part` list of the bucket keyed `key`.
    fn add_to_bucket(&mut self, key: &String, part: u8, x: String)
        ensures
            final(self)@ == with_domains(old(self)@, add_to_bucket(old(self)@.domains, key@, part_of(part), x@)),
    {
        proof {
            use_type_invariant(&*self);
        }
        let ghost v0 = self@;
        let ghost dv = self@.domains;
        let pos = self.find_bucket(key);
        let mut ds: Vec<(String, DomainBucket)> = Vec::new();
        std::mem::swap(&mut ds, &mut self.domains);
        assert(ds@.map_values(|p: (String, DomainBucket)| (p.0@, p.1@)) == dv);
        match pos {
            Some(i) => {
                proof {
                    lemma_find_key(dv, key@);
                }
                let mut entry: (String, DomainBucket) = (String::new(), DomainBucket::default());
                ds.set_and_swap(i, &mut entry);
                push_to_part(&mut entry.1, part, x);
                let ghost e = entry;
                ds.set_and_swap(i, &mut entry);
                assert(e.0@ == key@);
                assert(ds@.map_values(|p: (String, DomainBucket)| (p.0@, p.1@)) =~= add_to_bucket(dv, key@, part_of(part), x@));
            },
            None => {
                let mut b = DomainBucket::default();
                push_to_part(&mut b, part, x);
                ds.push((key.clone(), b));
                assert(ds@.map_values(|p: (String, DomainBucket)| (p.0@, p.1@)) =~= add_to_bucket(dv, key@, part_of(part), x@));
            },
        }
        proof {
            lemma_add_to_bucket_nonempty(dv, key@, part_of(part), x@);
        }
        self.domains = ds;
        assert(self@ =~= with_domains(v0, add_to_bucket(dv, key@, part_of(part), x@)));
    }

    /// Appends `x` to the `part` list of the bucket of every key, in order.
    fn add_to_buckets(&mut self, keys: &Vec<String>, part: u8, x: &String)
        ensures
            final(self)@ == with_domains(old(self)@, add_to_buckets(old(self)@.domains, keys.deep_view(), part_of(part), x@)),
    {
        proof {
            use_type_invariant(&*self);
        }
        let ghost kv = keys.deep_view();
        let n = keys.len();
        let mut i: usize = 0;
        assert(kv.take(0) =~= Seq::<Seq<char>>::empty());
        while i < n
            invariant
                n == kv.len(),
                kv == keys.deep_view(),
                i <= n,
                self@ == with_domains(old(self)@, add_to_buckets(old(self)@.domains, kv.take(i as int), part_of(part), x@)),
            decreases n - i,
        {
            self.add_to_bucket(&keys[i], part, x.clone());
            assert(kv.take(i + 1).drop_last() =~= kv.take(i as int));
            assert(kv.take(i + 1).last() == keys@[i as int]@);
            i = i + 1;
        }
        assert(kv.take(n as int) =~= kv);
    }

    fn insert_parsed(&mut self, rule: ParsedCosmeticRule)
        ensures
            final(self)@ == apply_rule(old(self)@, rule@),
    {
        proof {
            use_type_invariant(&*self);
        }
        let ghost v = self@;
        match rule {
            ParsedCosmeticRule::GlobalCss { selector } => {
                let mut g: Vec<String> = Vec::new();
                std::mem::swap(&mut g, &mut self.global_css);
                g.push(selector);
                self.global_css = g;
                assert(self@.global_css =~= v.global_css.push(selector@));
                assert(self@ =~= apply_rule(v, rule@));
            },
            ParsedCosmeticRule::GlobalException { selector } => {
                if !crate::js::contains_string(&self.global_exceptions, &selector) {
                    let mut g: Vec<String> = Vec::new();
                    std::mem::swap(&mut g, &mut self.global_exceptions);
                    g.push(selector);
                    self.global_exceptions = g;
                    assert(self@.global_exceptions =~= v.global_exceptions.push(selector@));
                }
                assert(self@ =~= apply_rule(v, rule@));
            },
            ParsedCosmeticRule::DomainCss { domains, selector } => {
                self.add_to_buckets(&domains, 0, &selector);
            },
            ParsedCosmeticRule::DomainException { domains, selector } => {
                self.add_to_buckets(&domains, 1, &selector);
            },
            ParsedCosmeticRule::Scriptlet { domains, payload } => {
                self.add_to_buckets(&domains, 2, &payload);
            },
            ParsedCosmeticRule::NegatedDomainCss { excluded_domains, selector } => {
                self.add_negated(selector, excluded_domains);
                assert(self@ =~= apply_rule(v, rule@));
            },
        }
    }

    /// Adds a negated rule, merging exclusions into an existing rule with the
    /// same selector.
    fn add_negated(&mut self, selector: String, excluded: Vec<String>)
        ensures
            final(self)@ == with_negated(old(self)@, add_negated_rule(old(self)@.negated, selector@, excluded.deep_view())),
    {
        proof {
            use_type_invariant(&*self);
        }
        let ghost v0 = self@;
        let ghost ns = self@.negated;
        let mut negs: Vec<NegatedRule> = Vec::new();
        std::mem::swap(&mut negs, &mut self.negated);
        assert(negs@.map_values(|r: NegatedRule| r@) == ns);
        match find_negated_pos(&negs, &selector) {
            Some(i) => {
                proof {
                    lemma_find_negated(ns, selector@);
                }
                let mut r = NegatedRule { selector: String::new(), excluded_domains: Vec::new() };
                negs.set_and_swap(i, &mut r);
                assert(r@ == ns[i as int]);
                merge_exclusions(&mut r.excluded_domains, &excluded);
                let ghost rv = r@;
                negs.set_and_swap(i, &mut r);
                assert(negs@.map_values(|r: NegatedRule| r@) =~= ns.update(i as int, rv));
                assert(rv.selector == selector@);
                assert(negs@.map_values(|r: NegatedRule| r@) =~= add_negated_rule(ns, selector@, excluded.deep_view()));
            },
            None => {
                let r = NegatedRule { selector, excluded_domains: excluded };
                negs.push(r);
                assert(negs@.map_values(|r: NegatedRule| r@) =~= add_negated_rule(ns, selector@, excluded.deep_view()));
            },
        }
        self.negated = negs;
        assert(self@ =~= with_negated(v0, add_negated_rule(ns, selector@, excluded.deep_view())));
    }

    /// Builds the script to inject on `host`: empty when no rule applies.
    /// The host is lower-cased first.
    pub fn build_bundle(&self, host: &str) -> (r: String)
        ensures
            r@ == bundle_for(self@, host@),
    {
        let hc = chars_of(host);
        let lower = to_lowercase(&hc);
        let ls = string_of(&lower);
        self.build_bundle_lowered(ls.as_str())
    }

    /// Builds the script to inject on a host that is already lower-cased.
    pub fn build_bundle_lowered(&self, lowered: &str) -> (r: String)
        ensures
            r@ == bundle_for_lowered(self@, lowered@),
    {
        let ghost v = self@;
        let lc = chars_of(lowered);
        let h = strip_both_exec(&lc, TrimSet::Only('.'));
        let hs = string_of(&h);
        let ghost hv = bundle_host(lowered@);
        assert(hs@ == hv);
        let sfx = domain_suffixes(hs.as_str());
        let ghost sv = sfx.deep_view();
        let n = sfx.len();

        // Exceptions: global ones, then those of each suffix's bucket.
        let mut exc = clone_strings(&self.global_exceptions);
        let mut i: usize = 0;
        assert(v.global_exceptions + suffix_exceptions(v.domains, sv.take(0)) =~= v.global_exceptions);
        while i < n
            invariant
                n == sv.len(),
                sv == sfx.deep_view(),
                i <= n,
                v == self@,
                exc.deep_view() =~= v.global_exceptions + suffix_exceptions(v.domains, sv.take(i as int)),
            decreases n - i,
        {
            assert(sv.take(i + 1).drop_last() =~= sv.take(i as int));
            assert(sv.take(i + 1).last() == sv[i as int]);
            match self.find_bucket(&sfx[i]) {
                Some(j) => {
                    proof {
                        lemma_find_key(v.domains, sv[i as int]);
                    }
                    assert(v.domains[j as int].1 == self.domains@[j as int].1@);
                    append_all(&mut exc, &self.domains[j].1.exceptions);
                },
                None => {},
            }
            i = i + 1;
        }
        assert(sv.take(n as int) =~= sv);
        let ghost ev = exc.deep_view();
        assert(ev == active_exceptions(v, hv));

        // Global CSS rules, then negated rules.
        let mut css: Vec<String> = Vec::new();
        append_unexcepted(&mut css, &self.global_css, &exc);
        let ghost base = unexcepted(v.global_css, ev);
        assert(css.deep_view() =~= base);
        let m = self.negated.len();
        let mut k: usize = 0;
        assert(base + negated_css(v.negated.take(0), ev, hv) =~= base);
        while k < m
            invariant
                m == v.negated.len(),
                k <= m,
                v == self@,
                ev == exc.deep_view(),
                hv == hs@,
                css.deep_view() =~= base + negated_css(v.negated.take(k as int), ev, hv),
            decreases m - k,
        {
            assert(v.negated.take(k + 1).drop_last() =~= v.negated.take(k as int));
            assert(v.negated.take(k + 1).last() == v.negated[k as int]);
            let neg = &self.negated[k];
            assert(v.negated[k as int] == neg@);
            if !crate::js::contains_string(&exc, &neg.selector) && !host_matches_any(hs.as_str(), &neg.excluded_domains) {
                let ghost before = css.deep_view();
                css.push(neg.selector.clone());
                assert(css.deep_view() =~= before.push(neg.selector@));
            }
            k = k + 1;
        }
        assert(v.negated.take(m as int) =~= v.negated);
        let ghost mid = css.deep_view();

        // The suffixes' CSS rules and scriptlets, most general suffix first.
        let mut scripts: Vec<String> = Vec::new();
        let mut i: usize = 0;
        assert(mid + suffix_css(v.domains, sv.take(0), ev) =~= mid);
        assert(suffix_scripts(v.domains, sv.take(0)) =~= Seq::<Seq<char>>::empty());
        while i < n
            invariant
                n == sv.len(),
                sv == sfx.deep_view(),
                i <= n,
                v == self@,
                ev == exc.deep_view(),
                css.deep_view() =~= mid + suffix_css(v.domains, sv.take(i as int), ev),
                scripts.deep_view() =~= suffix_scripts(v.domains, sv.take(i as int)),
            decreases n - i,
        {
            assert(sv.take(i + 1).drop_last() =~= sv.take(i as int));
            assert(sv.take(i + 1).last() == sv[i as int]);
            match self.find_bucket(&sfx[i]) {
                Some(j) => {
                    proof {
                        lemma_find_key(v.domains, sv[i as int]);
                    }
                    assert(v.domains[j as int].1 == self.domains@[j as int].1@);
                    append_unexcepted(&mut css, &self.domains[j].1.css, &exc);
                    append_all(&mut scripts, &self.domains[j].1.scriptlets);
                },
                None => {},
            }
            i = i + 1;
        }
        assert(sv.take(n as int) =~= sv);
        assert(css.deep_view() =~= selected_css(v, hv));
        assert(scripts.deep_view() =~= selected_scripts(v, hv));
        if css.len() == 0 && scripts.len() == 0 {
            String::new()
        } else {
            compile_bundle(&css, &scripts)
        }
    }

    /// The number of stored rules.
    pub fn total_rules(&self) -> (r: usize)
        ensures
            r == if rule_total(self@) <= usize::MAX { rule_total(self@) } else { usize::MAX as nat },
    {
        let ghost dv = self@.domains;
        let n = self.domains.len();
        let mut acc: usize = 0;
        let mut i: usize = 0;
        assert(dv.take(0) =~= Seq::<(Seq<char>, BucketView)>::empty());
        while i < n
            invariant
                n == dv.len(),
                dv == self@.domains,
                i <= n,
                acc == if bucket_rules(dv.take(i as int)) <= usize::MAX { bucket_rules(dv.take(i as int)) } else { usize::MAX as nat },
            decreases n - i,
        {
            let b = &self.domains[i].1;
            assert(dv.take(i + 1).drop_last() =~= dv.take(i as int));
            assert(dv.take(i + 1).last() == dv[i as int]);
            acc = acc.saturating_add(b.css.len()).saturating_add(b.exceptions.len()).saturating_add(b.scriptlets.len());
            i = i + 1;
        }
        assert(dv.take(n as int) =~= dv);
        self.global_css.len().saturating_add(self.global_exceptions.len()).saturating_add(self.negated.len()).saturating_add(acc)
    }

    /// Whether no rule is stored: exactly when the rule count is 0.
    pub fn is_empty(&self) -> (r: bool)
        ensures
            r == (self@.global_css.len() == 0 && self@.global_exceptions.len() == 0 && self@.domains.len() == 0
                && self@.negated.len() == 0),
            r == (rule_total(self@) == 0),
    {
        proof {
            use_type_invariant(self);
            lemma_bucket_rules_positive(self@.domains);
        }
        self.global_css.len() == 0 && self.global_exceptions.len() == 0 && self.domains.len() == 0
            && self.negated.len() == 0
    }
}

// ── Laws ─────────────────────────────────────────────────────────────────────

proof fn lemma_unexcepted(sels: Seq<Seq<char>>, exc: Seq<Seq<char>>, x: Seq<char>)
    ensures
        unexcepted(sels, exc).contains(x) <==> (sels.contains(x) && !exc.contains(x)),
    decreases sels.len(),
{
    if sels.len() > 0 {
        let init = sels.drop_last();
        lemma_unexcepted(init, exc, x);
        let u = unexcepted(init, exc);
        assert(sels =~= init.push(sels.last()));
        if sels.contains(x) && !exc.contains(x) {
            let i = choose|i: int| 0 <= i < sels.len() && sels[i] == x;
            if i < sels.len() - 1 {
                assert(init[i] == x);
            }
        }
        if init.contains(x) {
            let i = choose|i: int| 0 <= i < init.len() && init[i] == x;
            assert(sels[i] == x);
        }
        if !exc.contains(sels.last()) {
            assert(u.push(sels.last())[u.len() as int] == sels.last());
            if u.push(sels.last()).contains(x) {
                let i = choose|i: int| 0 <= i < u.push(sels.last()).len() && u.push(sels.last())[i] == x;
                if i < u.len() {
                    assert(u[i] == x);
                }
            }
            if u.contains(x) {
                let i = choose|i: int| 0 <= i < u.len() && u[i] == x;
                assert(u.push(sels.last())[i] == x);
            }
        }
    }
}

proof fn lemma_negated_css(ns: Seq<NegatedView>, exc: Seq<Seq<char>>, host: Seq<char>, x: Seq<char>)
    ensures
        negated_css(ns, exc, host).contains(x) ==> !exc.contains(x) && exists|i: int|
            0 <= i < ns.len() && (#[trigger] ns[i]).selector == x && !host_in_domains(host, ns[i].excluded_domains),
    decreases ns.len(),
{
    if ns.len() > 0 {
        let init = ns.drop_last();
        lemma_negated_css(init, exc, host, x);
        let n0 = negated_css(init, exc, host);
        if negated_css(ns, exc, host).contains(x) {
            if n0.contains(x) {
                let i = choose|i: int| 0 <= i < init.len() && (#[trigger] init[i]).selector == x && !host_in_domains(host, init[i].excluded_domains);
                assert(ns[i] == init[i]);
            } else {
                let last = ns.last();
                assert(!exc.contains(last.selector) && !host_in_domains(host, last.excluded_domains));
                let k = choose|k: int| 0 <= k < n0.push(last.selector).len() && n0.push(last.selector)[k] == x;
                if k < n0.len() {
                    assert(n0[k] == x);
                }
                assert(ns[ns.len() - 1] == last);
            }
        }
    }
}

proof fn lemma_suffix_css(ds: Seq<(Seq<char>, BucketView)>, sfx: Seq<Seq<char>>, exc: Seq<Seq<char>>, x: Seq<char>)
    ensures
        exc.contains(x) ==> !suffix_css(ds, sfx, exc).contains(x),
    decreases sfx.len(),
{
    if sfx.len() > 0 {
        lemma_suffix_css(ds, sfx.drop_last(), exc, x);
        let a = suffix_css(ds, sfx.drop_last(), exc);
        let b = match bucket_of(ds, sfx.last()) {
            Some(bk) => unexcepted(bk.css, exc),
            None => Seq::empty(),
        };
        match bucket_of(ds, sfx.last()) {
            Some(bk) => lemma_unexcepted(bk.css, exc, x),
            None => {},
        }
        if exc.contains(x) && (a + b).contains(x) {
            let k = choose|k: int| 0 <= k < (a + b).len() && (a + b)[k] == x;
            if k < a.len() {
                assert(a[k] == x);
            } else {
                assert(b[k - a.len()] == x);
            }
        }
    }
}

/// Exceptions win: a selector excepted on a host (globally or on one of its
/// suffixes) is hidden there by no rule, global, negated or domain-specific.
pub proof fn law_exceptions_win(v: EngineView, host: Seq<char>, x: Seq<char>)
    requires
        active_exceptions(v, host).contains(x),
    ensures
        !selected_css(v, host).contains(x),
{
    let exc = active_exceptions(v, host);
    lemma_unexcepted(v.global_css, exc, x);
    lemma_negated_css(v.negated, exc, host, x);
    lemma_suffix_css(v.domains, suffix_chain(host), exc, x);
    let a = unexcepted(v.global_css, exc);
    let b = negated_css(v.negated, exc, host);
    let c = suffix_css(v.domains, suffix_chain(host), exc);
    lemma_concat_contains(a, b, x);
    lemma_concat_contains(a + b, c, x);
}

/// A global rule applies on every host where its selector is not excepted.
pub proof fn law_global_rule_applies(v: EngineView, host: Seq<char>, x: Seq<char>)
    requires
        v.global_css.contains(x),
        !active_exceptions(v, host).contains(x),
    ensures
        selected_css(v, host).contains(x),
{
    let exc = active_exceptions(v, host);
    lemma_unexcepted(v.global_css, exc, x);
    let a = unexcepted(v.global_css, exc);
    let b = negated_css(v.negated, exc, host);
    let c = suffix_css(v.domains, suffix_chain(host), exc);
    lemma_concat_contains(a, b, x);
    lemma_concat_contains(a + b, c, x);
}

/// A negated rule contributes its selector only on hosts that none of its
/// excluded domains covers (the domain itself or a subdomain of it).
pub proof fn law_negated_rule_skips_excluded(ns: Seq<NegatedView>, exc: Seq<Seq<char>>, host: Seq<char>, x: Seq<char>)
    requires
        forall|i: int| 0 <= i < ns.len() && (#[trigger] ns[i]).selector == x ==> host_in_domains(host, ns[i].excluded_domains),
    ensures
        !negated_css(ns, exc, host).contains(x),
{
    lemma_negated_css(ns, exc, host, x);
}

proof fn lemma_no_buckets(sfx: Seq<Seq<char>>, exc: Seq<Seq<char>>)
    ensures
        suffix_css(Seq::empty(), sfx, exc) == Seq::<Seq<char>>::empty(),
        suffix_scripts(Seq::empty(), sfx) == Seq::<Seq<char>>::empty(),
    decreases sfx.len(),
{
    if sfx.len() > 0 {
        lemma_no_buckets(sfx.drop_last(), exc);
        assert(suffix_css(Seq::empty(), sfx, exc) =~= Seq::<Seq<char>>::empty());
        assert(suffix_scripts(Seq::empty(), sfx) =~= Seq::<Seq<char>>::empty());
    }
}

/// An engine with no rules gives the empty bundle on every host.
pub proof fn law_empty_engine_empty_bundle(v: EngineView, host: Seq<char>)
    requires
        v.global_css.len() == 0,
        v.global_exceptions.len() == 0,
        v.domains.len() == 0,
        v.negated.len() == 0,
    ensures
        bundle_for(v, host) == Seq::<char>::empty(),
{
    let h = bundle_host(lower_chars(host));
    let exc = active_exceptions(v, h);
    assert(v.domains =~= Seq::<(Seq<char>, BucketView)>::empty());
    lemma_no_buckets(suffix_chain(h), exc);
    assert(unexcepted(v.global_css, exc) =~= Seq::<Seq<char>>::empty());
    assert(negated_css(v.negated, exc, h) =~= Seq::<Seq<char>>::empty());
    assert(selected_css(v, h) =~= Seq::<Seq<char>>::empty());
}

/// The number of rules in a bucket.
pub open spec fn bucket_size(b: BucketView) -> nat {
    b.css.len() + b.exceptions.len() + b.scriptlets.len()
}

proof fn lemma_bucket_rules_update(ds: Seq<(Seq<char>, BucketView)>, i: int, e: (Seq<char>, BucketView))
    requires
        0 <= i < ds.len(),
    ensures
        bucket_rules(ds.update(i, e)) == bucket_rules(ds) - bucket_size(ds[i].1) + bucket_size(e.1),
    decreases ds.len(),
{
    let u = ds.update(i, e);
    if i == ds.len() - 1 {
        assert(u.drop_last() =~= ds.drop_last());
    } else {
        assert(u.drop_last() =~= ds.drop_last().update(i, e));
        lemma_bucket_rules_update(ds.drop_last(), i, e);
        assert(u.last() == ds.last());
    }
}

proof fn lemma_bucket_rules_add(ds: Seq<(Seq<char>, BucketView)>, k: Seq<char>, part: BucketPart, x: Seq<char>)
    ensures
        bucket_rules(add_to_bucket(ds, k, part, x)) == bucket_rules(ds) + 1,
{
    lemma_find_key(ds, k);
    let i = find_key(ds, k);
    if i >= 0 {
        lemma_bucket_rules_update(ds, i, (k, push_part(ds[i].1, part, x)));
    } else {
        assert(ds.push((k, push_part(empty_bucket(), part, x))).drop_last() =~= ds);
    }
}

proof fn lemma_bucket_rules_add_all(ds: Seq<(Seq<char>, BucketView)>, keys: Seq<Seq<char>>, part: BucketPart, x: Seq<char>)
    ensures
        bucket_rules(add_to_buckets(ds, keys, part, x)) == bucket_rules(ds) + keys.len(),
    decreases keys.len(),
{
    if keys.len() > 0 {
        lemma_bucket_rules_add_all(ds, keys.drop_last(), part, x);
        lemma_bucket_rules_add(add_to_buckets(ds, keys.drop_last(), part, x), keys.last(), part, x);
    }
}

/// How many rules taking in `r` adds: one per global rule or per domain of
/// a domain rule; a global exception or a negated rule whose selector is
/// stored already adds none (a negated rule's exclusions merge).
pub open spec fn rule_growth(v: EngineView, r: CosmeticView) -> nat {
    match r {
        CosmeticView::GlobalCss { .. } => 1,
        CosmeticView::GlobalException { selector } => if v.global_exceptions.contains(selector) { 0 } else { 1 },
        CosmeticView::DomainCss { domains, .. } => domains.len(),
        CosmeticView::DomainException { domains, .. } => domains.len(),
        CosmeticView::Scriptlet { domains, .. } => domains.len(),
        CosmeticView::NegatedDomainCss { selector, .. } => if find_negated(v.negated, selector) >= 0 { 0 } else { 1 },
    }
}

/// Taking in a rule grows the rule count by `rule_growth`.
pub proof fn law_insert_line_counts(v: EngineView, r: CosmeticView)
    ensures
        rule_total(apply_rule(v, r)) == rule_total(v) + rule_growth(v, r),
{
    match r {
        CosmeticView::DomainCss { domains, selector } => {
            lemma_bucket_rules_add_all(v.domains, domains, BucketPart::Css, selector);
        },
        CosmeticView::DomainException { domains, selector } => {
            lemma_bucket_rules_add_all(v.domains, domains, BucketPart::Exceptions, selector);
        },
        CosmeticView::Scriptlet { domains, payload } => {
            lemma_bucket_rules_add_all(v.domains, domains, BucketPart::Scriptlets, payload);
        },
        CosmeticView::NegatedDomainCss { excluded_domains, selector } => {
            lemma_find_negated(v.negated, selector);
        },
        _ => {},
    }
}

/// Surrounding dots of the host do not matter: a host with them trimmed
/// gets the same bundle.
pub proof fn law_bundle_ignores_surrounding_dots(v: EngineView, lowered: Seq<char>)
    ensures
        bundle_for_lowered(v, strip_both(lowered, TrimSet::Only('.'))) == bundle_for_lowered(v, lowered),
{
    crate::text::lemma_strip_both_idem(lowered, TrimSet::Only('.'));
}

/// The bucket of `d` holds the scriptlet `x`.
pub open spec fn bucket_has_script(ds: Seq<(Seq<char>, BucketView)>, d: Seq<char>, x: Seq<char>) -> bool {
    match bucket_of(ds, d) {
        Some(b) => b.scriptlets.contains(x),
        None => false,
    }
}

/// Some suffix of `sfx` has a bucket whose scriptlets hold `x`.
proof fn lemma_suffix_scripts(ds: Seq<(Seq<char>, BucketView)>, sfx: Seq<Seq<char>>, x: Seq<char>)
    ensures
        suffix_scripts(ds, sfx).contains(x) <==> exists|k: int|
            0 <= k < sfx.len() && #[trigger] bucket_has_script(ds, sfx[k], x),
    decreases sfx.len(),
{
    if sfx.len() > 0 {
        let init = sfx.drop_last();
        lemma_suffix_scripts(ds, init, x);
        let last = match bucket_of(ds, sfx.last()) {
            Some(b) => b.scriptlets,
            None => Seq::empty(),
        };
        lemma_concat_contains(suffix_scripts(ds, init), last, x);
        if suffix_scripts(ds, sfx).contains(x) {
            if suffix_scripts(ds, init).contains(x) {
                let k = choose|k: int| 0 <= k < init.len() && #[trigger] bucket_has_script(ds, init[k], x);
                assert(sfx[k] == init[k]);
            } else {
                assert(sfx[sfx.len() - 1] == sfx.last());
                assert(last.contains(x));
                assert(bucket_has_script(ds, sfx[sfx.len() - 1], x));
            }
        }
        if exists|k: int| 0 <= k < sfx.len() && #[trigger] bucket_has_script(ds, sfx[k], x) {
            let k = choose|k: int| 0 <= k < sfx.len() && #[trigger] bucket_has_script(ds, sfx[k], x);
            if k < init.len() {
                assert(init[k] == sfx[k]);
                assert(bucket_has_script(ds, init[k], x));
            } else {
                assert(sfx.last() == sfx[k]);
                assert(last.contains(x));
            }
        }
    }
}

/// A scriptlet stored for a domain is injected on every host whose suffixes
/// include that domain (the domain itself and its subdomains), and a
/// scriptlet is injected on a host only when it is stored for one of the
/// host's suffixes.
pub proof fn law_scriptlet_reaches_subdomains(v: EngineView, host: Seq<char>, x: Seq<char>)
    ensures
        selected_scripts(v, host).contains(x) <==> exists|d: Seq<char>|
            suffix_chain(host).contains(d) && #[trigger] bucket_has_script(v.domains, d, x),
{
    let sfx = suffix_chain(host);
    lemma_suffix_scripts(v.domains, sfx, x);
    if selected_scripts(v, host).contains(x) {
        let k = choose|k: int| 0 <= k < sfx.len() && #[trigger] bucket_has_script(v.domains, sfx[k], x);
        assert(sfx.contains(sfx[k]));
    }
    if exists|d: Seq<char>| suffix_chain(host).contains(d) && #[trigger] bucket_has_script(v.domains, d, x) {
        let d = choose|d: Seq<char>| suffix_chain(host).contains(d) && #[trigger] bucket_has_script(v.domains, d, x);
        let k = choose|k: int| 0 <= k < sfx.len() && sfx[k] == d;
        assert(bucket_has_script(v.domains, sfx[k], x));
    }
}

/// The domains of a parsed scriptlet rule are exactly the entries of its
/// domain list that do not start with `~`, in order.
pub proof fn law_scriptlet_domains_are_plain_entries(line: Seq<char>)
    requires
        parse_cosmetic(line) is Some,
        parse_cosmetic(line).unwrap() is Scriptlet,
    ensures
        cosmetic_separator(line) is Some,
        !cosmetic_separator(line).unwrap().1,
        domain_list(cosmetic_separator(line).unwrap().0) is Some,
        parse_cosmetic(line).unwrap()->Scriptlet_domains == domain_list(cosmetic_separator(line).unwrap().0).unwrap().filter(
            |d: Seq<char>| !(d.len() > 0 && d[0] == '~'),
        ),
{
    let (before, is_exc, after) = cosmetic_separator(line).unwrap();
    let ds = domain_list(before).unwrap();
    lemma_plain_entries_filter(ds);
}

proof fn lemma_plain_entries_filter(ds: Seq<Seq<char>>)
    ensures
        plain_entries(ds) == ds.filter(|d: Seq<char>| !(d.len() > 0 && d[0] == '~')),
    decreases ds.len(),
{
    reveal(Seq::filter);
    if ds.len() > 0 {
        lemma_plain_entries_filter(ds.drop_last());
    }
}

/// A domain with a dot is among the suffixes of itself and of each of its
/// subdomains.
proof fn lemma_domain_in_suffix_chain(d: Seq<char>, x: Seq<char>)
    requires
        d.contains('.'),
    ensures
        suffix_chain(d).contains(d),
        suffix_chain(x.push('.') + d).contains(d),
{
    let pd = split_char(d, '.');
    crate::text::lemma_split_two(d, '.');
    crate::text::lemma_join_split(d, '.');
    let m = pd.len();
    assert(pd.skip(0) =~= pd);
    assert(suffix_chain(d)[m - 2] == join_with(pd.skip(0), '.'));
    assert(suffix_chain(d).contains(d)) by {
        assert(suffix_chain(d)[m - 2] == d);
    }
    let h = x.push('.') + d;
    crate::text::lemma_split_concat(x, '.', d);
    crate::text::lemma_split_char_nonempty(x, '.');
    let px = split_char(x, '.');
    let parts = split_char(h, '.');
    assert(parts == px + pd);
    assert(parts.skip(px.len() as int) =~= pd);
    assert(suffix_chain(h)[m - 2] == join_with(parts.skip(parts.len() - 2 - (m - 2)), '.'));
    assert(suffix_chain(h)[m - 2] == d);
}

/// A scriptlet stored for a domain `d` is injected on `d` and on every
/// subdomain `x.d` of it.
pub proof fn law_scriptlet_applies_on_subdomains(v: EngineView, d: Seq<char>, x: Seq<char>, s: Seq<char>)
    requires
        d.contains('.'),
        bucket_has_script(v.domains, d, s),
    ensures
        selected_scripts(v, d).contains(s),
        selected_scripts(v, x.push('.') + d).contains(s),
{
    lemma_domain_in_suffix_chain(d, x);
    law_scriptlet_reaches_subdomains(v, d, s);
    law_scriptlet_reaches_subdomains(v, x.push('.') + d, s);
}

proof fn lemma_negated_entries_filter(ds: Seq<Seq<char>>)
    ensures
        negated_entries(ds) == ds.filter(|d: Seq<char>| d.len() > 0 && d[0] == '~').map_values(
            |d: Seq<char>| d.drop_first(),
        ),
    decreases ds.len(),
{
    reveal(Seq::filter);
    if ds.len() > 0 {
        lemma_negated_entries_filter(ds.drop_last());
        let f = ds.drop_last().filter(|d: Seq<char>| d.len() > 0 && d[0] == '~');
        assert(f.push(ds.last()).map_values(|d: Seq<char>| d.drop_first()) =~= f.map_values(
            |d: Seq<char>| d.drop_first(),
        ).push(ds.last().drop_first()));
    }
}

/// The domains of a parsed domain-specific CSS rule or exception are the
/// entries of its domain list without a leading `~`, in order and
/// lower-cased; those of a rule with only negated entries are the negated
/// entries, without their `~`, lower-cased.
pub proof fn law_cosmetic_rule_domains(line: Seq<char>)
    requires
        parse_cosmetic(line) is Some,
    ensures
        ({
            let (before, is_exc, after) = cosmetic_separator(line).unwrap();
            let ds = domain_list(before).unwrap();
            let plain = ds.filter(|d: Seq<char>| !(d.len() > 0 && d[0] == '~'));
            let negated = ds.filter(|d: Seq<char>| d.len() > 0 && d[0] == '~');
            &&& parse_cosmetic(line).unwrap() is DomainCss ==> (!is_exc && parse_cosmetic(line).unwrap()->DomainCss_domains
                == plain.map_values(|d: Seq<char>| lower_chars(d)))
            &&& parse_cosmetic(line).unwrap() is DomainException ==> (is_exc
                && parse_cosmetic(line).unwrap()->DomainException_domains == plain.map_values(|d: Seq<char>| lower_chars(d)))
            &&& parse_cosmetic(line).unwrap() is NegatedDomainCss ==> (!is_exc && plain.len() == 0
                && parse_cosmetic(line).unwrap()->excluded_domains == negated.map_values(
                |d: Seq<char>| lower_chars(d.drop_first()),
            ))
        }),
{
    let (before, is_exc, after) = cosmetic_separator(line).unwrap();
    if domain_list(before) is Some {
        let ds = domain_list(before).unwrap();
        lemma_plain_entries_filter(ds);
        lemma_negated_entries_filter(ds);
        let negated = ds.filter(|d: Seq<char>| d.len() > 0 && d[0] == '~');
        assert(negated.map_values(|d: Seq<char>| d.drop_first()).map_values(|d: Seq<char>| lower_chars(d))
            =~= negated.map_values(|d: Seq<char>| lower_chars(d.drop_first())));
    }
}

} // verus!
