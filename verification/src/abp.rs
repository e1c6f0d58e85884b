//! Network filter lines in Adblock Plus syntax.
//!
//! The supported subset:
//!   `||domain.com^`                     universal block of the domain and its subdomains
//!   `@@||domain.com^`                   exception
//!   `||domain.com^$domain=x.com|~y.com` origin constraints
//!   `$script`, `$image`, ...            resource types
//!   `$third-party` / `$3p`              third-party requests only
//!
//! Ignored: cosmetic rules, path rules, regex rules, IP address rules.
use vstd::prelude::*;
use vstd::multiset::Multiset;
use crate::ip::{is_ip_literal, is_ip_literal_exec};
use crate::rule::{effective_action, fires_as, Action, OriginConstraint, OriginView, RuleView};
use crate::tree::{has_match, query, reverse_origins, DomainTree, Entry};
use crate::domain::reverse_domain;
use crate::resource_type::{DOCUMENT, FONT, IMAGE, MEDIA, OTHER, SCRIPT, STYLESHEET, SUBDOCUMENT, XHR};
use crate::text::{
    chars_of, contains_char, contains_seq, eq_lit, find_exec, index_of, index_of_exec, lemma_find_seq, lower_chars, split_char,
    split_vec, starts_with, starts_with_exec, string_of, strip_end, strip_end_exec, subvec,
    to_lowercase, trim, trim_exec, views_of, TrimSet,
};

verus! {

/// A parsed network rule.
#[derive(Debug)]
pub struct ParsedRule {
    /// The requested domain, lower-cased.
    pub domain: String,
    /// `@@` rule: allow rather than block.
    pub is_exception: bool,
    /// Origins from `$domain=` (the rule applies only on these); empty when
    /// there is no such constraint.
    pub positive_origins: Vec<String>,
    /// Negated origins from `$domain=~x` (the rule applies except on these).
    pub negative_origins: Vec<String>,
    /// Bitmask of resource types; 0 means all.
    pub resource_mask: u16,
    pub third_party_only: bool,
}

/// A parsed rule as plain values.
pub struct ParsedRuleView {
    pub domain: Seq<char>,
    pub is_exception: bool,
    pub positive_origins: Seq<Seq<char>>,
    pub negative_origins: Seq<Seq<char>>,
    pub resource_mask: u16,
    pub third_party_only: bool,
}

impl View for ParsedRule {
    type V = ParsedRuleView;

    open spec fn view(&self) -> ParsedRuleView {
        ParsedRuleView {
            domain: self.domain@,
            is_exception: self.is_exception,
            positive_origins: self.positive_origins.deep_view(),
            negative_origins: self.negative_origins.deep_view(),
            resource_mask: self.resource_mask,
            third_party_only: self.third_party_only,
        }
    }
}

// ── Grammar ──────────────────────────────────────────────────────────────────

/// The resource-type bit of a modifier, 0 for one that names no type.
pub open spec fn modifier_bit(t: Seq<char>) -> u16 {
    if t == "script"@ {
        SCRIPT
    } else if t == "image"@ || t == "background"@ {
        IMAGE
    } else if t == "stylesheet"@ {
        STYLESHEET
    } else if t == "xmlhttprequest"@ || t == "xhr"@ {
        XHR
    } else if t == "media"@ {
        MEDIA
    } else if t == "font"@ {
        FONT
    } else if t == "document"@ {
        DOCUMENT
    } else if t == "subdocument"@ {
        SUBDOCUMENT
    } else if t == "other"@ || t == "object"@ || t == "ping"@ || t == "beacon"@ || t == "websocket"@ {
        OTHER
    } else {
        0
    }
}

/// What the options of a rule have set so far.
pub struct OptState {
    pub mask: u16,
    pub third_party: bool,
    pub positive: Seq<Seq<char>>,
    pub negative: Seq<Seq<char>>,
}

pub open spec fn no_options() -> OptState {
    OptState { mask: 0, third_party: false, positive: Seq::empty(), negative: Seq::empty() }
}

/// The state after the `|`-separated entries of a `domain=` option: `~x`
/// adds `x` to the negated origins, `x` to the positive ones, lower-cased,
/// and only when it holds a dot; empty entries are skipped.
pub open spec fn add_origins(st: OptState, raws: Seq<Seq<char>>) -> OptState
    decreases raws.len(),
{
    if raws.len() == 0 {
        st
    } else {
        let s0 = add_origins(st, raws.drop_last());
        let raw = raws.last();
        if raw.len() == 0 {
            s0
        } else if raw[0] == '~' {
            let o = lower_chars(raw.skip(1));
            if o.contains('.') {
                OptState { negative: s0.negative.push(o), ..s0 }
            } else {
                s0
            }
        } else {
            let o = lower_chars(raw);
            if o.contains('.') {
                OptState { positive: s0.positive.push(o), ..s0 }
            } else {
                s0
            }
        }
    }
}

/// The state after one (trimmed) option.
pub open spec fn apply_option(st: OptState, opt: Seq<char>) -> OptState {
    if opt == "third-party"@ || opt == "3p"@ {
        OptState { third_party: true, ..st }
    } else if opt == "~third-party"@ || opt == "~3p"@ {
        st
    } else if starts_with(opt, "domain="@) {
        add_origins(st, split_char(opt.skip(7), '|'))
    } else if modifier_bit(opt) != 0 {
        OptState { mask: st.mask | modifier_bit(opt), ..st }
    } else {
        st
    }
}

/// The state after the comma-separated options, each trimmed.
pub open spec fn apply_options(st: OptState, opts: Seq<Seq<char>>) -> OptState
    decreases opts.len(),
{
    if opts.len() == 0 {
        st
    } else {
        apply_option(apply_options(st, opts.drop_last()), trim(opts.last()))
    }
}

/// The domain part of a rule body (before any `$`) with trailing `^` and
/// then trailing `|` removed.
pub open spec fn rule_domain(body: Seq<char>) -> Seq<char> {
    let d = index_of(body, '$');
    let part = if d >= 0 { body.take(d) } else { body };
    strip_end(strip_end(part, TrimSet::Only('^')), TrimSet::Only('|'))
}

/// The rule that a line gives, if it is a supported network rule.
pub open spec fn parse_abp(line: Seq<char>) -> Option<ParsedRuleView> {
    let is_exception = starts_with(line, "@@"@);
    let rule = if is_exception { line.skip(2) } else { line };
    if !starts_with(rule, "||"@) {
        None
    } else {
        let body = rule.skip(2);
        let domain = rule_domain(body);
        if domain.contains('/') || is_ip_literal(domain) || domain.len() == 0 || !domain.contains('.') {
            None
        } else {
            let d = index_of(body, '$');
            let st = if d >= 0 { apply_options(no_options(), split_char(body.skip(d + 1), ',')) } else { no_options() };
            Some(
                ParsedRuleView {
                    domain: lower_chars(domain),
                    is_exception,
                    positive_origins: st.positive,
                    negative_origins: st.negative,
                    resource_mask: st.mask,
                    third_party_only: st.third_party,
                },
            )
        }
    }
}

// ── Parser ───────────────────────────────────────────────────────────────────

/// Maps a single modifier token to its resource-type bit; 0 for unknown
/// modifiers.
fn modifier_to_resource_bit(token: &[char]) -> (r: u16)
    ensures
        r == modifier_bit(token@),
{
    if eq_lit(token, "script") {
        SCRIPT
    } else if eq_lit(token, "image") || eq_lit(token, "background") {
        IMAGE
    } else if eq_lit(token, "stylesheet") {
        STYLESHEET
    } else if eq_lit(token, "xmlhttprequest") || eq_lit(token, "xhr") {
        XHR
    } else if eq_lit(token, "media") {
        MEDIA
    } else if eq_lit(token, "font") {
        FONT
    } else if eq_lit(token, "document") {
        DOCUMENT
    } else if eq_lit(token, "subdocument") {
        SUBDOCUMENT
    } else if eq_lit(token, "other") || eq_lit(token, "object") || eq_lit(token, "ping") || eq_lit(token, "beacon")
        || eq_lit(token, "websocket") {
        OTHER
    } else {
        0
    }
}

/// Adds the origins of a `domain=` option's entries.
fn add_origins_exec(positive: &mut Vec<String>, negative: &mut Vec<String>, list: &[char], Ghost(st): Ghost<OptState>)
    requires
        old(positive).deep_view() == st.positive,
        old(negative).deep_view() == st.negative,
    ensures
        final(positive).deep_view() == add_origins(st, split_char(list@, '|')).positive,
        final(negative).deep_view() == add_origins(st, split_char(list@, '|')).negative,
        add_origins(st, split_char(list@, '|')).mask == st.mask,
        add_origins(st, split_char(list@, '|')).third_party == st.third_party,
{
    let raws = split_vec(list, '|');
    let ghost rv = views_of(raws@);
    let n = raws.len();
    let mut k: usize = 0;
    while k < n
        invariant
            n == rv.len(),
            rv == views_of(raws@),
            rv == split_char(list@, '|'),
            k <= n,
            positive.deep_view() == add_origins(st, rv.take(k as int)).positive,
            negative.deep_view() == add_origins(st, rv.take(k as int)).negative,
            add_origins(st, rv.take(k as int)).mask == st.mask,
            add_origins(st, rv.take(k as int)).third_party == st.third_party,
        decreases n - k,
    {
        assert(rv.take(k + 1).drop_last() =~= rv.take(k as int));
        assert(rv.take(k + 1).last() == raws@[k as int]@);
        let raw = &raws[k];
        if raw.len() > 0 {
            if raw[0] == '~' {
                let rest = subvec(raw, 1, raw.len());
                assert(rest@ =~= raw@.skip(1));
                let o = to_lowercase(&rest);
                if contains_char(&o, '.') {
                    let ghost before = negative.deep_view();
                    negative.push(string_of(&o));
                    assert(negative.deep_view() =~= before.push(o@));
                }
            } else {
                let o = to_lowercase(raw);
                if contains_char(&o, '.') {
                    let ghost before = positive.deep_view();
                    positive.push(string_of(&o));
                    assert(positive.deep_view() =~= before.push(o@));
                }
            }
        }
        k = k + 1;
    }
    assert(rv.take(n as int) =~= rv);
}

/// Parses a single filter line. Returns `None` for unsupported or ignored
/// rules.
pub fn parse_abp_line(line: &str) -> (r: Option<ParsedRule>)
    ensures
        match r {
            Some(p) => parse_abp(line@) == Some(p@),
            None => parse_abp(line@) is None,
        },
{
    proof {
    reveal_strlit("@@");
    reveal_strlit("||");
    reveal_strlit("domain=");
    }
    let l = chars_of(line);
    let at = chars_of("@@");
    let is_exception = starts_with_exec(&l, &at);
    let rule = if is_exception { subvec(&l, 2, l.len()) } else { subvec(&l, 0, l.len()) };
    assert(rule@ =~= (if is_exception { l@.skip(2) } else { l@ }));
    let bars = chars_of("||");
    if !starts_with_exec(&rule, &bars) {
        return None;
    }
    let body = subvec(&rule, 2, rule.len());
    assert(body@ =~= rule@.skip(2));
    let dollar = index_of_exec(&body, '$');
    let part = match dollar {
        Some(d) => subvec(&body, 0, d),
        None => subvec(&body, 0, body.len()),
    };
    assert(part@ =~= (if index_of(body@, '$') >= 0 { body@.take(index_of(body@, '$')) } else { body@ }));
    let d1 = strip_end_exec(&part, TrimSet::Only('^'));
    let domain = strip_end_exec(&d1, TrimSet::Only('|'));
    assert(domain@ == rule_domain(body@));
    if contains_char(&domain, '/') {
        return None;
    }
    if is_ip_literal_exec(&domain) {
        return None;
    }
    if domain.len() == 0 || !contains_char(&domain, '.') {
        return None;
    }
    let lower = to_lowercase(&domain);

    let mut resource_mask: u16 = 0;
    let mut third_party_only = false;
    let mut positive_origins: Vec<String> = Vec::new();
    let mut negative_origins: Vec<String> = Vec::new();
    let ghost st0 = no_options();
    assert(positive_origins.deep_view() =~= st0.positive);
    assert(negative_origins.deep_view() =~= st0.negative);

    match dollar {
        Some(d) => {
            let rest = subvec(&body, d + 1, body.len());
            assert(rest@ =~= body@.skip(d + 1));
            let opts = split_vec(&rest, ',');
            let ghost ov = views_of(opts@);
            let n = opts.len();
            let mut k: usize = 0;
            assert(ov.take(0) =~= Seq::<Seq<char>>::empty());
            while k < n
                invariant
                    n == ov.len(),
                    ov == views_of(opts@),
                    k <= n,
                    ({
                        let st = apply_options(st0, ov.take(k as int));
                        &&& resource_mask == st.mask
                        &&& third_party_only == st.third_party
                        &&& positive_origins.deep_view() == st.positive
                        &&& negative_origins.deep_view() == st.negative
                    }),
                decreases n - k,
            {
                assert(ov.take(k + 1).drop_last() =~= ov.take(k as int));
                assert(ov.take(k + 1).last() == opts@[k as int]@);
                let ghost st = apply_options(st0, ov.take(k as int));
                proof {
                reveal_strlit("domain=");
                }
                let opt = trim_exec(&opts[k]);
                if eq_lit(&opt, "third-party") || eq_lit(&opt, "3p") {
                    third_party_only = true;
                } else if eq_lit(&opt, "~third-party") || eq_lit(&opt, "~3p") {
                } else if starts_with_exec(&opt, &chars_of("domain=")) {
                    let list = subvec(&opt, 7, opt.len());
                    assert(list@ =~= opt@.skip(7));
                    add_origins_exec(&mut positive_origins, &mut negative_origins, &list, Ghost(st));
                } else {
                    let bit = modifier_to_resource_bit(&opt);
                    if bit != 0 {
                        resource_mask = resource_mask | bit;
                    }
                }
                k = k + 1;
            }
            assert(ov.take(n as int) =~= ov);
        },
        None => {},
    }
    Some(
        ParsedRule {
            domain: string_of(&lower),
            is_exception,
            positive_origins,
            negative_origins,
            resource_mask,
            third_party_only,
        },
    )
}

// ── Lines of a list file ─────────────────────────────────────────────────────

/// The rule a line of a list file gives. The line is trimmed; blank lines,
/// comments (`!`, `#`), cosmetic rules (`##`, `#@#`, `#?#`) and regex rules
/// (`/.../`) give none.
pub open spec fn list_line_rule(line: Seq<char>) -> Option<ParsedRuleView> {
    let t = trim(line);
    if t.len() == 0 || t[0] == '!' || t[0] == '#' {
        None
    } else if contains_seq(t, "##"@) || contains_seq(t, "#@#"@) || contains_seq(t, "#?#"@) {
        None
    } else if t[0] == '/' && t.last() == '/' {
        None
    } else {
        parse_abp(t)
    }
}

/// The origin constraint of a parsed rule: the positive origins when there
/// are any, else the negated ones, else none.
pub open spec fn rule_constraint(p: ParsedRuleView) -> OriginView {
    if p.positive_origins.len() > 0 {
        OriginView::OnlyOn(p.positive_origins)
    } else if p.negative_origins.len() > 0 {
        OriginView::ExceptOn(p.negative_origins)
    } else {
        OriginView::Any
    }
}

/// The tree entry of a parsed rule: its reversed domain with the rule.
pub open spec fn rule_entry(p: ParsedRuleView) -> Entry {
    (
        reverse_domain(p.domain),
        RuleView {
            action: if p.is_exception { Action::Allow } else { Action::Block },
            origin: reverse_origins(rule_constraint(p)),
            resource_mask: p.resource_mask,
            third_party_only: p.third_party_only,
        },
    )
}

/// The tree after taking in one line of a list file.
pub open spec fn after_list_line(ms: Multiset<Entry>, line: Seq<char>) -> Multiset<Entry> {
    match list_line_rule(line) {
        Some(p) => if p.domain.len() > 0 {
            ms.insert(rule_entry(p))
        } else {
            ms
        },
        None => ms,
    }
}

/// The tree after taking in the lines of a list file, one after another.
pub open spec fn after_list_lines(ms: Multiset<Entry>, lines: Seq<Seq<char>>) -> Multiset<Entry>
    decreases lines.len(),
{
    if lines.len() == 0 {
        ms
    } else {
        after_list_line(after_list_lines(ms, lines.drop_last()), lines.last())
    }
}

/// How many lines of a list file hold a supported rule.
pub open spec fn rule_line_count(lines: Seq<Seq<char>>) -> nat
    decreases lines.len(),
{
    if lines.len() == 0 {
        0
    } else {
        rule_line_count(lines.drop_last()) + if list_line_rule(lines.last()) is Some {
            1nat
        } else {
            0nat
        }
    }
}

/// The rules a list file gives.
pub open spec fn file_rules(lines: Seq<Seq<char>>) -> Multiset<Entry> {
    after_list_lines(Multiset::empty(), lines)
}

/// A list file adds its rules and changes nothing else: taking in its lines
/// adds the same rules whatever the tree held before, at most one per line
/// that holds a supported rule.
pub proof fn law_list_file_adds_its_rules(ms: Multiset<Entry>, lines: Seq<Seq<char>>)
    ensures
        after_list_lines(ms, lines) == ms.add(file_rules(lines)),
        file_rules(lines).len() <= rule_line_count(lines),
        rule_line_count(lines) <= lines.len(),
    decreases lines.len(),
{
    if lines.len() == 0 {
        assert(ms.add(Multiset::empty()) =~= ms);
    } else {
        let init = lines.drop_last();
        law_list_file_adds_its_rules(ms, init);
        law_list_file_adds_its_rules(Multiset::empty(), init);
        assert(Multiset::<Entry>::empty().add(file_rules(init)) =~= file_rules(init));
        match list_line_rule(lines.last()) {
            Some(p) => if p.domain.len() > 0 {
                assert(ms.add(file_rules(init)).insert(rule_entry(p)) =~= ms.add(file_rules(init).insert(rule_entry(p))));
            },
            None => {},
        }
    }
}

/// Taking in one file after another is taking in their lines in turn.
pub proof fn law_list_files_in_turn(ms: Multiset<Entry>, a: Seq<Seq<char>>, b: Seq<Seq<char>>)
    ensures
        after_list_lines(ms, a + b) == after_list_lines(after_list_lines(ms, a), b),
        rule_line_count(a + b) == rule_line_count(a) + rule_line_count(b),
    decreases b.len(),
{
    if b.len() == 0 {
        assert(a + b =~= a);
    } else {
        law_list_files_in_turn(ms, a, b.drop_last());
        assert((a + b).drop_last() =~= a + b.drop_last());
        assert((a + b).last() == b.last());
    }
}

/// Takes in the lines of a list file, one after another; returns how many
/// held a supported rule.
pub fn insert_list_lines(tree: &mut DomainTree, lines: &Vec<String>) -> (count: usize)
    ensures
        count == rule_line_count(lines.deep_view()),
        final(tree)@ == after_list_lines(old(tree)@, lines.deep_view()),
{
    let ghost lv = lines.deep_view();
    let n = lines.len();
    let mut count: usize = 0;
    let mut k: usize = 0;
    assert(lv.take(0) =~= Seq::<Seq<char>>::empty());
    while k < n
        invariant
            n == lv.len(),
            lv == lines.deep_view(),
            k <= n,
            count == rule_line_count(lv.take(k as int)),
            tree@ == after_list_lines(old(tree)@, lv.take(k as int)),
        decreases n - k,
    {
        proof {
            assert(lv.take(k + 1).drop_last() =~= lv.take(k as int));
            assert(lv.take(k + 1).last() == lines@[k as int]@);
            law_list_file_adds_its_rules(Multiset::empty(), lv.take(k as int));
        }
        if insert_list_line(tree, lines[k].as_str()) {
            count = count + 1;
        }
        k = k + 1;
    }
    assert(lv.take(n as int) =~= lv);
    count
}

/// Takes in one line of a list file; returns whether it held a supported
/// rule (which is then in the tree).
pub fn insert_list_line(tree: &mut DomainTree, line: &str) -> (r: bool)
    ensures
        r == list_line_rule(line@) is Some,
        final(tree)@ == after_list_line(old(tree)@, line@),
{
    proof {
    reveal_strlit("##");
    reveal_strlit("#@#");
    reveal_strlit("#?#");
    }
    let l = chars_of(line);
    let t = trim_exec(&l);
    if t.len() == 0 || t[0] == '!' || t[0] == '#' {
        return false;
    }
    if find_exec(&t, &chars_of("##")).is_some() || find_exec(&t, &chars_of("#@#")).is_some() || find_exec(
        &t,
        &chars_of("#?#"),
    ).is_some() {
        proof {
            lemma_find_seq(t@, "##"@);
            lemma_find_seq(t@, "#@#"@);
            lemma_find_seq(t@, "#?#"@);
        }
        return false;
    }
    proof {
        lemma_find_seq(t@, "##"@);
        lemma_find_seq(t@, "#@#"@);
        lemma_find_seq(t@, "#?#"@);
    }
    if t[0] == '/' && t[t.len() - 1] == '/' {
        return false;
    }
    let ts = string_of(&t);
    match parse_abp_line(ts.as_str()) {
        Some(p) => {
            let ghost pv = p@;
            let action = if p.is_exception { Action::Allow } else { Action::Block };
            let constraint = if p.positive_origins.len() > 0 {
                OriginConstraint::OnlyOn(p.positive_origins)
            } else if p.negative_origins.len() > 0 {
                OriginConstraint::ExceptOn(p.negative_origins)
            } else {
                OriginConstraint::Any
            };
            assert(constraint@ == rule_constraint(pv));
            tree.insert_with_modifiers(p.domain.as_str(), action, constraint, p.resource_mask, p.third_party_only);
            true
        },
        None => false,
    }
}

// ── Laws of list lines ───────────────────────────────────────────────────────

/// Adding a rule whose action is `Allow` never blocks a request that was not
/// blocked: it cannot block, and it can only lift blocks.
proof fn lemma_allow_entry_never_blocks(
    ms: Multiset<Entry>,
    e: Entry,
    h: Seq<char>,
    origin: Option<Seq<char>>,
    mask: u16,
    tp: bool,
)
    requires
        e.1.action == Action::Allow,
        query(ms.insert(e), h, origin, mask, tp),
    ensures
        query(ms, h, origin, mask, tp),
{
    let q = crate::domain::reverse_domain(h);
    let o = crate::tree::reverse_opt(origin);
    let f = choose|f: Entry|
        #![trigger ms.insert(e).count(f)]
        ms.insert(e).count(f) > 0 && crate::domain::label_prefix(f.0, q) && fires_as(f.1, o, mask, tp, Action::Block);
    if f == e {
        assert(effective_action(e.1, o) == Action::Allow);
    }
    assert(ms.count(f) > 0);
    if has_match(ms, q, o, mask, tp, Action::Allow) {
        let g = choose|g: Entry|
            #![trigger ms.count(g)]
            ms.count(g) > 0 && crate::domain::label_prefix(g.0, q) && fires_as(g.1, o, mask, tp, Action::Allow);
        assert(ms.insert(e).count(g) > 0);
    }
}

/// Loading an exception line (`@@...`) never makes a request blocked: an
/// exception only lifts blocks, on the origins it names (or everywhere when
/// it names none). In particular a list of exceptions alone blocks nothing.
pub proof fn law_exception_lines_never_block(
    ms: Multiset<Entry>,
    line: Seq<char>,
    h: Seq<char>,
    origin: Option<Seq<char>>,
    mask: u16,
    tp: bool,
)
    requires
        list_line_rule(line) matches Some(p) && p.is_exception,
        query(after_list_line(ms, line), h, origin, mask, tp),
    ensures
        query(ms, h, origin, mask, tp),
{
    let p = list_line_rule(line).unwrap();
    if p.domain.len() > 0 {
        lemma_allow_entry_never_blocks(ms, rule_entry(p), h, origin, mask, tp);
    }
}

/// Loading a blocking line (one without `@@`) never lifts a block: a
/// request that was blocked stays blocked, unless the rule it adds is an
/// exception, which it is not.
pub proof fn law_block_lines_never_allow(
    ms: Multiset<Entry>,
    line: Seq<char>,
    h: Seq<char>,
    origin: Option<Seq<char>>,
    mask: u16,
    tp: bool,
)
    requires
        list_line_rule(line) matches Some(p) && !p.is_exception,
        query(ms, h, origin, mask, tp),
    ensures
        query(after_list_line(ms, line), h, origin, mask, tp),
{
    let p = list_line_rule(line).unwrap();
    if p.domain.len() > 0 {
        let e = rule_entry(p);
        let ms2 = ms.insert(e);
        let q = crate::domain::reverse_domain(h);
        let o = crate::tree::reverse_opt(origin);
        let f = choose|f: Entry|
            #![trigger ms.count(f)]
            ms.count(f) > 0 && crate::domain::label_prefix(f.0, q) && fires_as(f.1, o, mask, tp, Action::Block);
        assert(ms2.count(f) > 0);
        if has_match(ms2, q, o, mask, tp, Action::Allow) {
            let g = choose|g: Entry|
                #![trigger ms2.count(g)]
                ms2.count(g) > 0 && crate::domain::label_prefix(g.0, q) && fires_as(g.1, o, mask, tp, Action::Allow);
            if g == e {
                assert(effective_action(e.1, o) == Action::Block);
            }
            assert(ms.count(g) > 0);
        }
    }
}

/// Each resource-type option of the Adblock Plus syntax sets its own type
/// bit, whatever the options before it set: `script`; `image` and
/// `background`; `stylesheet`; `xmlhttprequest` and `xhr`; `media`; `font`;
/// `document`; `subdocument`; `other`, `object`, `ping`, `beacon` and
/// `websocket`.
pub proof fn law_type_options_set_their_bit(st: OptState)
    ensures
        apply_option(st, "script"@) == (OptState { mask: st.mask | SCRIPT, ..st }),
        apply_option(st, "image"@) == (OptState { mask: st.mask | IMAGE, ..st }),
        apply_option(st, "background"@) == (OptState { mask: st.mask | IMAGE, ..st }),
        apply_option(st, "stylesheet"@) == (OptState { mask: st.mask | STYLESHEET, ..st }),
        apply_option(st, "xmlhttprequest"@) == (OptState { mask: st.mask | XHR, ..st }),
        apply_option(st, "xhr"@) == (OptState { mask: st.mask | XHR, ..st }),
        apply_option(st, "media"@) == (OptState { mask: st.mask | MEDIA, ..st }),
        apply_option(st, "font"@) == (OptState { mask: st.mask | FONT, ..st }),
        apply_option(st, "document"@) == (OptState { mask: st.mask | DOCUMENT, ..st }),
        apply_option(st, "subdocument"@) == (OptState { mask: st.mask | SUBDOCUMENT, ..st }),
        apply_option(st, "other"@) == (OptState { mask: st.mask | OTHER, ..st }),
        apply_option(st, "object"@) == (OptState { mask: st.mask | OTHER, ..st }),
        apply_option(st, "ping"@) == (OptState { mask: st.mask | OTHER, ..st }),
        apply_option(st, "beacon"@) == (OptState { mask: st.mask | OTHER, ..st }),
        apply_option(st, "websocket"@) == (OptState { mask: st.mask | OTHER, ..st }),
{
    reveal_strlit("script");
    reveal_strlit("image");
    reveal_strlit("background");
    reveal_strlit("stylesheet");
    reveal_strlit("xmlhttprequest");
    reveal_strlit("xhr");
    reveal_strlit("media");
    reveal_strlit("font");
    reveal_strlit("document");
    reveal_strlit("subdocument");
    reveal_strlit("other");
    reveal_strlit("object");
    reveal_strlit("ping");
    reveal_strlit("beacon");
    reveal_strlit("websocket");
    reveal_strlit("third-party");
    reveal_strlit("3p");
    reveal_strlit("~third-party");
    reveal_strlit("~3p");
    reveal_strlit("domain=");
    assert("script"@[0] == 's' && "script"@.len() == 6);
    assert("image"@[0] == 'i' && "image"@.len() == 5);
    assert("background"@[0] == 'b' && "background"@.len() == 10);
    assert("stylesheet"@[0] == 's' && "stylesheet"@.len() == 10);
    assert("xmlhttprequest"@[0] == 'x' && "xmlhttprequest"@.len() == 14);
    assert("xhr"@[0] == 'x' && "xhr"@.len() == 3);
    assert("media"@[0] == 'm' && "media"@.len() == 5);
    assert("font"@[0] == 'f' && "font"@.len() == 4);
    assert("document"@[0] == 'd' && "document"@.len() == 8);
    assert("subdocument"@[0] == 's' && "subdocument"@.len() == 11);
    assert("other"@[0] == 'o' && "other"@.len() == 5);
    assert("object"@[0] == 'o' && "object"@.len() == 6);
    assert("ping"@[0] == 'p' && "ping"@.len() == 4);
    assert("beacon"@[0] == 'b' && "beacon"@.len() == 6);
    assert("websocket"@[0] == 'w' && "websocket"@.len() == 9);
    assert("third-party"@[0] == 't' && "third-party"@.len() == 11);
    assert("3p"@[0] == '3' && "3p"@.len() == 2);
    assert("~third-party"@[0] == '~' && "~third-party"@.len() == 12);
    assert("~3p"@[0] == '~' && "~3p"@.len() == 3);
    assert("domain="@[0] == 'd' && "domain="@.len() == 7);
    assert("domain="@[2] == 'm' && "document"@[2] == 'c');
    assert("document"@.take(7) != "domain="@);
}

/// One option after a rule's domain: `||d^$o` is the rule `||d^` with the
/// state that option `o` (trimmed) sets.
pub proof fn law_one_option_rule(d: Seq<char>, o: Seq<char>)
    requires
        parse_abp("||"@ + d + "^"@) is Some,
        !d.contains('$'),
        !o.contains(','),
    ensures
        ({
            let st = apply_option(no_options(), trim(o));
            parse_abp("||"@ + d + "^$"@ + o) == Some(
                ParsedRuleView {
                    positive_origins: st.positive,
                    negative_origins: st.negative,
                    resource_mask: st.mask,
                    third_party_only: st.third_party,
                    ..parse_abp("||"@ + d + "^"@).unwrap()
                },
            )
        }),
        parse_abp("||"@ + d + "^"@).unwrap().resource_mask == 0,
        parse_abp("||"@ + d + "^"@).unwrap().positive_origins == Seq::<Seq<char>>::empty(),
        parse_abp("||"@ + d + "^"@).unwrap().negative_origins == Seq::<Seq<char>>::empty(),
        !parse_abp("||"@ + d + "^"@).unwrap().third_party_only,
        !parse_abp("||"@ + d + "^"@).unwrap().is_exception,
{
    reveal_strlit("||");
    reveal_strlit("@@");
    reveal_strlit("^");
    reveal_strlit("^$");
    let l0 = "||"@ + d + "^"@;
    let l1 = "||"@ + d + "^$"@ + o;
    assert(!starts_with(l0, "@@"@)) by {
        assert(l0.take(2)[0] == '|');
    }
    assert(!starts_with(l1, "@@"@)) by {
        assert(l1.take(2)[0] == '|');
    }
    assert(l0.take(2) =~= "||"@);
    assert(l1.take(2) =~= "||"@);
    let b0 = l0.skip(2);
    let b1 = l1.skip(2);
    assert(b0 =~= d.push('^'));
    assert(b1 =~= d.push('^').push('$') + o);
    crate::text::lemma_index_of(b0, '$');
    crate::text::lemma_index_of(b1, '$');
    assert(forall|i: int| 0 <= i < b0.len() ==> b0[i] != '$') by {
        assert forall|i: int| 0 <= i < b0.len() implies b0[i] != '$' by {
            if i < d.len() {
                assert(b0[i] == d[i]);
            }
        }
    }
    let k = index_of(b1, '$');
    assert(b1[d.len() as int + 1] == '$');
    assert(k == d.len() + 1) by {
        if k < d.len() + 1 {
            if k < d.len() {
                assert(b1[k] == d[k]);
            } else {
                assert(b1[k] == '^');
            }
        }
    }
    assert(b1.take(k) =~= b0);
    assert(rule_domain(b1) == rule_domain(b0));
    assert(b1.skip(k + 1) =~= o);
    crate::text::lemma_index_of(o, ',');
    assert(split_char(o, ',') =~= seq![o]);
    let opts = seq![o];
    assert(opts.drop_last() =~= Seq::<Seq<char>>::empty());
    assert(apply_options(no_options(), opts.drop_last()) == no_options());
    assert(opts.last() == o);
    assert(apply_options(no_options(), opts) == apply_option(no_options(), trim(o)));
}

proof fn lemma_type_option(d: Seq<char>, t: Seq<char>, bit: u16)
    requires
        parse_abp("||"@ + d + "^"@) is Some,
        !d.contains('$'),
        t.len() > 0,
        forall|i: int| 0 <= i < t.len() ==> 'a' <= #[trigger] t[i] <= 'z',
        apply_option(no_options(), t) == (OptState { mask: no_options().mask | bit, ..no_options() }),
    ensures
        parse_abp("||"@ + d + "^$"@ + t) == Some(ParsedRuleView { resource_mask: bit, ..parse_abp("||"@ + d + "^"@).unwrap() }),
{
    assert(!t.contains(','));
    assert(trim(t) == t) by {
        assert(!crate::text::is_white_space(t[0]));
        assert(crate::text::strip_start(t, TrimSet::WhiteSpace) == t);
        assert(!crate::text::is_white_space(t.last()));
    }
    assert(0u16 | bit == bit) by (bit_vector);
    law_one_option_rule(d, t);
    reveal_strlit("||");
    reveal_strlit("^");
    let l0 = "||"@ + d + "^"@;
    assert(l0.take(2) =~= "||"@);
}

/// The resource-type options of the Adblock Plus syntax and the type bit
/// each names.
pub open spec fn documented_type_option(t: Seq<char>, bit: u16) -> bool {
    ||| t == "script"@ && bit == SCRIPT
    ||| t == "image"@ && bit == IMAGE
    ||| t == "background"@ && bit == IMAGE
    ||| t == "stylesheet"@ && bit == STYLESHEET
    ||| t == "xmlhttprequest"@ && bit == XHR
    ||| t == "xhr"@ && bit == XHR
    ||| t == "media"@ && bit == MEDIA
    ||| t == "font"@ && bit == FONT
    ||| t == "document"@ && bit == DOCUMENT
    ||| t == "subdocument"@ && bit == SUBDOCUMENT
    ||| t == "other"@ && bit == OTHER
    ||| t == "object"@ && bit == OTHER
    ||| t == "ping"@ && bit == OTHER
    ||| t == "beacon"@ && bit == OTHER
    ||| t == "websocket"@ && bit == OTHER
}

/// The resource-type options on any rule: for every domain `d` that makes
/// `||d^` a rule, `||d^$t` is the same rule restricted to the type that the
/// documented option `t` names.
pub proof fn law_type_option_gives_its_bit(d: Seq<char>, t: Seq<char>, bit: u16)
    requires
        parse_abp("||"@ + d + "^"@) is Some,
        !d.contains('$'),
        documented_type_option(t, bit),
    ensures
        parse_abp("||"@ + d + "^$"@ + t) == Some(ParsedRuleView { resource_mask: bit, ..parse_abp("||"@ + d + "^"@).unwrap() }),
{
    reveal_strlit("script");
    reveal_strlit("image");
    reveal_strlit("background");
    reveal_strlit("stylesheet");
    reveal_strlit("xmlhttprequest");
    reveal_strlit("xhr");
    reveal_strlit("media");
    reveal_strlit("font");
    reveal_strlit("document");
    reveal_strlit("subdocument");
    reveal_strlit("other");
    reveal_strlit("object");
    reveal_strlit("ping");
    reveal_strlit("beacon");
    reveal_strlit("websocket");
    reveal_strlit("third-party");
    reveal_strlit("3p");
    reveal_strlit("~third-party");
    reveal_strlit("~3p");
    reveal_strlit("domain=");
    assert("script"@[0] == 's' && "script"@.len() == 6);
    assert("image"@[0] == 'i' && "image"@.len() == 5);
    assert("background"@[0] == 'b' && "background"@.len() == 10);
    assert("stylesheet"@[0] == 's' && "stylesheet"@.len() == 10);
    assert("xmlhttprequest"@[0] == 'x' && "xmlhttprequest"@.len() == 14);
    assert("xhr"@[0] == 'x' && "xhr"@.len() == 3);
    assert("media"@[0] == 'm' && "media"@.len() == 5);
    assert("font"@[0] == 'f' && "font"@.len() == 4);
    assert("document"@[0] == 'd' && "document"@.len() == 8);
    assert("subdocument"@[0] == 's' && "subdocument"@.len() == 11);
    assert("other"@[0] == 'o' && "other"@.len() == 5);
    assert("object"@[0] == 'o' && "object"@.len() == 6);
    assert("ping"@[0] == 'p' && "ping"@.len() == 4);
    assert("beacon"@[0] == 'b' && "beacon"@.len() == 6);
    assert("websocket"@[0] == 'w' && "websocket"@.len() == 9);
    assert("third-party"@[0] == 't' && "third-party"@.len() == 11);
    assert("3p"@[0] == '3' && "3p"@.len() == 2);
    assert("~third-party"@[0] == '~' && "~third-party"@.len() == 12);
    assert("~3p"@[0] == '~' && "~3p"@.len() == 3);
    assert("domain="@[0] == 'd' && "domain="@.len() == 7);
    assert("domain="@[2] == 'm' && "document"@[2] == 'c');
    assert("document"@.take(7) != "domain="@);
    law_type_options_set_their_bit(no_options());
    if t == "script"@ {
        reveal_strlit("script");
        lemma_type_option(d, "script"@, SCRIPT);
    } else if t == "image"@ {
        reveal_strlit("image");
        lemma_type_option(d, "image"@, IMAGE);
    } else if t == "background"@ {
        reveal_strlit("background");
        lemma_type_option(d, "background"@, IMAGE);
    } else if t == "stylesheet"@ {
        reveal_strlit("stylesheet");
        lemma_type_option(d, "stylesheet"@, STYLESHEET);
    } else if t == "xmlhttprequest"@ {
        reveal_strlit("xmlhttprequest");
        lemma_type_option(d, "xmlhttprequest"@, XHR);
    } else if t == "xhr"@ {
        reveal_strlit("xhr");
        lemma_type_option(d, "xhr"@, XHR);
    } else if t == "media"@ {
        reveal_strlit("media");
        lemma_type_option(d, "media"@, MEDIA);
    } else if t == "font"@ {
        reveal_strlit("font");
        lemma_type_option(d, "font"@, FONT);
    } else if t == "document"@ {
        reveal_strlit("document");
        lemma_type_option(d, "document"@, DOCUMENT);
    } else if t == "subdocument"@ {
        reveal_strlit("subdocument");
        lemma_type_option(d, "subdocument"@, SUBDOCUMENT);
    } else if t == "other"@ {
        reveal_strlit("other");
        lemma_type_option(d, "other"@, OTHER);
    } else if t == "object"@ {
        reveal_strlit("object");
        lemma_type_option(d, "object"@, OTHER);
    } else if t == "ping"@ {
        reveal_strlit("ping");
        lemma_type_option(d, "ping"@, OTHER);
    } else if t == "beacon"@ {
        reveal_strlit("beacon");
        lemma_type_option(d, "beacon"@, OTHER);
    } else if t == "websocket"@ {
        reveal_strlit("websocket");
        lemma_type_option(d, "websocket"@, OTHER);
    }
}

/// `@@` makes an exception of a rule and changes nothing else: for a line
/// `l` starting with `||`, `@@l` parses as `l` does, marked as an exception.
pub proof fn law_exception_prefix(l: Seq<char>)
    requires
        starts_with(l, "||"@),
    ensures
        parse_abp("@@"@ + l) == match parse_abp(l) {
            Some(p) => Some(ParsedRuleView { is_exception: true, ..p }),
            None => None,
        },
        parse_abp(l) matches Some(p) ==> !p.is_exception,
{
    reveal_strlit("@@");
    reveal_strlit("||");
    let e = "@@"@ + l;
    assert(e.take(2) =~= "@@"@);
    assert(e.skip(2) =~= l);
    assert(!starts_with(l, "@@"@)) by {
        assert(l.take(2)[0] == '|');
    }
}

} // verus!
