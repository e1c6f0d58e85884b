use vstd::prelude::*;
use vstd::multiset::Multiset;
use vstd::seq_lib::{to_multiset_build, to_multiset_len};
use crate::text::{chars_of, ends_with, ends_with_exec, eq_chars, string_of, subvec};
use crate::domain::{append_chars, label_prefix, lemma_reverse_domain_involutive, lemma_reverse_domain_len, lemma_reverse_subdomain, reverse_domain, reverse_domain_chars};
use crate::rule::{fires_as, origin_in_list, rule_applies, origin_gate, Action, OriginConstraint, OriginView, Rule, RuleView};

verus! {

broadcast use vstd::multiset::group_multiset_axioms, vstd::seq_lib::group_to_multiset_ensures;

/// A rule together with the reversed domain it is attached to.
pub type Entry = (Seq<char>, RuleView);

/// One node of the radix tree over reversed domains. The children of a node
/// form a chain: `child` is the first child, `sibling` the next node that
/// shares this node's parent.
pub struct RadixNode {
    pub(crate) prefix: Vec<char>,
    /// All rules whose domain terminates at this node.
    pub(crate) rules: Vec<Rule>,
    pub(crate) child: Option<Box<RadixNode>>,
    pub(crate) sibling: Option<Box<RadixNode>>,
}

/// Each rule of `rules`, attached to `key`.
pub open spec fn keyed_ms(key: Seq<char>, rules: Seq<Rule>) -> Multiset<Entry> {
    rules.map_values(|r: Rule| (key, r@)).to_multiset()
}

/// The rules stored in a chain of nodes whose parent has path `base`.
pub(crate) open spec fn chain_ms(c: Option<Box<RadixNode>>, base: Seq<char>) -> Multiset<Entry>
    decreases c,
{
    match c {
        None => Multiset::empty(),
        Some(n) => keyed_ms(base + n.prefix@, n.rules@).add(chain_ms(n.child, base + n.prefix@)).add(
            chain_ms(n.sibling, base),
        ),
    }
}

/// Some node of the chain begins with `ch`.
pub(crate) open spec fn has_first(c: Option<Box<RadixNode>>, ch: char) -> bool
    decreases c,
{
    match c {
        None => false,
        Some(n) => n.prefix@.len() > 0 && n.prefix@[0] == ch || has_first(n.sibling, ch),
    }
}

/// Every node has a non-empty prefix and no two nodes of one chain begin
/// with the same character.
pub(crate) open spec fn chain_wf(c: Option<Box<RadixNode>>) -> bool
    decreases c,
{
    match c {
        None => true,
        Some(n) => {
            &&& n.prefix@.len() > 0
            &&& !has_first(n.sibling, n.prefix@[0])
            &&& chain_wf(n.child)
            &&& chain_wf(n.sibling)
        },
    }
}

/// Every key stored under a chain with parent path `base` extends `base` by
/// at least one character, and that character begins some node of the chain.
pub(crate) proof fn lemma_chain_keys(c: Option<Box<RadixNode>>, base: Seq<char>)
    requires
        chain_wf(c),
    ensures
        forall|e: Entry| #[trigger] chain_ms(c, base).count(e) > 0 ==> {
            &&& base.len() < e.0.len()
            &&& e.0.take(base.len() as int) == base
            &&& has_first(c, e.0[base.len() as int])
        },
    decreases c,
{
    match c {
        None => {},
        Some(n) => {
            let p = base + n.prefix@;
            lemma_chain_keys(n.child, p);
            lemma_chain_keys(n.sibling, base);
            assert forall|e: Entry| #[trigger] chain_ms(c, base).count(e) > 0 implies {
                &&& base.len() < e.0.len()
                &&& e.0.take(base.len() as int) == base
                &&& has_first(c, e.0[base.len() as int])
            } by {
                if keyed_ms(p, n.rules@).count(e) > 0 {
                    lemma_keyed_ms_key(p, n.rules@, e);
                    assert(e.0.take(base.len() as int) =~= base);
                    assert(e.0[base.len() as int] == n.prefix@[0]);
                } else if chain_ms(n.child, p).count(e) > 0 {
                    assert(e.0.take(base.len() as int) =~= p.take(base.len() as int));
                    assert(p.take(base.len() as int) =~= base);
                    assert(e.0[base.len() as int] == p[base.len() as int]);
                } else {
                    assert(chain_ms(n.sibling, base).count(e) > 0);
                }
            }
        },
    }
}

/// Every key stored in a node's own part extends the node's path.
pub(crate) proof fn lemma_node_keys(n: RadixNode, base: Seq<char>)
    requires
        chain_wf(n.child),
    ensures
        forall|e: Entry|
            #![trigger keyed_ms(base + n.prefix@, n.rules@).count(e)]
            #![trigger chain_ms(n.child, base + n.prefix@).count(e)]
            keyed_ms(base + n.prefix@, n.rules@).count(e) > 0 || chain_ms(n.child, base + n.prefix@).count(e) > 0 ==> {
                &&& (base + n.prefix@).len() <= e.0.len()
                &&& e.0.take((base + n.prefix@).len() as int) == base + n.prefix@
            },
{
    let p = base + n.prefix@;
    lemma_chain_keys(n.child, p);
    assert forall|e: Entry|
        keyed_ms(p, n.rules@).count(e) > 0 || chain_ms(n.child, p).count(e) > 0 implies {
            &&& p.len() <= e.0.len()
            &&& e.0.take(p.len() as int) == p
        } by {
        if keyed_ms(p, n.rules@).count(e) > 0 {
            lemma_keyed_ms_key(p, n.rules@, e);
            assert(e.0.take(p.len() as int) =~= p);
        }
    }
}

/// Entries of `keyed_ms(key, rules)` carry `key` and one of the rules.
pub proof fn lemma_keyed_ms_key(key: Seq<char>, rules: Seq<Rule>, e: Entry)
    requires
        keyed_ms(key, rules).count(e) > 0,
    ensures
        e.0 == key,
        exists|i: int| 0 <= i < rules.len() && e.1 == (#[trigger] rules[i])@,
{
    let s = rules.map_values(|r: Rule| (key, r@));
    assert(s.to_multiset().contains(e));
    assert(s.contains(e));
    let i = choose|i: int| 0 <= i < s.len() && s[i] == e;
    assert(e.1 == rules[i]@);
}

/// Appending a rule to a node adds one entry.
pub proof fn lemma_keyed_ms_push(key: Seq<char>, rules: Seq<Rule>, r: Rule)
    ensures
        keyed_ms(key, rules.push(r)) =~= keyed_ms(key, rules).insert((key, r@)),
{
    let f = |x: Rule| (key, x@);
    assert(rules.push(r).map_values(f) =~= rules.map_values(f).push((key, r@)));
    to_multiset_build(rules.map_values(f), (key, r@));
}

pub proof fn lemma_keyed_ms_empty(key: Seq<char>, rules: Seq<Rule>)
    requires
        rules.len() == 0,
    ensures
        keyed_ms(key, rules) =~= Multiset::empty(),
{
    let f = |x: Rule| (key, x@);
    assert(rules.map_values(f) =~= Seq::<Entry>::empty());
    to_multiset_len(rules.map_values(f));
}

/// A node with one rule and no neighbours.
fn leaf(prefix: Vec<char>, rule: Rule) -> (r: RadixNode)
    ensures
        r.prefix@ == prefix@,
        r.rules@ == seq![rule],
        r.child is None,
        r.sibling is None,
{
    let mut rules: Vec<Rule> = Vec::new();
    rules.push(rule);
    RadixNode { prefix, rules, child: None, sibling: None }
}

/// Length of the longest common prefix of `a` and `b[start..]`.
fn common_prefix_len(a: &[char], b: &[char], start: usize) -> (r: usize)
    requires
        start <= b@.len(),
    ensures
        r <= a@.len(),
        start + r <= b@.len(),
        forall|i: int| 0 <= i < r ==> a@[i] == b@[start + i],
        r < a@.len() && start + r < b@.len() ==> a@[r as int] != b@[start + r],
{
    let mut i: usize = 0;
    while i < a.len() && i < b.len() - start && a[i] == b[start + i]
        invariant
            start <= b@.len(),
            i <= a@.len(),
            start + i <= b@.len(),
            forall|j: int| 0 <= j < i ==> a@[j] == b@[start + j],
        decreases a@.len() - i,
    {
        i = i + 1;
    }
    i
}

/// Inserts `rule` under the key `key`, into the chain whose parent has path
/// `key[..start]`.
fn insert_chain(c: &mut Option<Box<RadixNode>>, key: &[char], start: usize, rule: Rule)
    requires
        chain_wf(*old(c)),
        start < key@.len(),
    ensures
        chain_wf(*final(c)),
        chain_ms(*final(c), key@.take(start as int)) =~= chain_ms(*old(c), key@.take(start as int)).insert(
            (key@, rule@),
        ),
        forall|ch: char| has_first(*final(c), ch) == (has_first(*old(c), ch) || ch == key@[start as int]),
    decreases *old(c),
{
    let ghost base = key@.take(start as int);
    match c.take() {
        None => {
            let node = leaf(subvec(key, start, key.len()), rule);
            proof {
                assert(base + node.prefix@ =~= key@);
                lemma_keyed_ms_push(key@, Seq::empty(), node.rules@[0]);
                assert(node.rules@ =~= Seq::<Rule>::empty().push(node.rules@[0]));
                lemma_keyed_ms_empty(key@, Seq::empty());
            }
            *c = Some(Box::new(node));
            proof {
                assert forall|ch: char| has_first(*c, ch) == (has_first(None, ch) || ch == key@[start as int]) by {
                    assert(!has_first(node.sibling, ch));
                }
                assert(chain_ms(*c, base) =~= keyed_ms(key@, node.rules@).add(chain_ms(None, key@)).add(chain_ms(None, base)));
                assert(chain_ms(*c, base) =~= chain_ms(None, base).insert((key@, rule@)));
            }
        },
        Some(mut node) => {
            let ghost old_node = *node;
            if node.prefix[0] != key[start] {
                insert_chain(&mut node.sibling, key, start, rule);
                *c = Some(node);
                proof {
                    assert(chain_ms(*c, base) =~= chain_ms(Some(Box::new(old_node)), base).insert((key@, rule@)));
                    assert forall|ch: char| has_first(*c, ch) == (has_first(Some(Box::new(old_node)), ch) || ch == key@[start as int]) by {
                        assert(has_first(node.sibling, ch) == (has_first(old_node.sibling, ch) || ch == key@[start as int]));
                    }
                }
            } else {
                let plen = node.prefix.len();
                let cl = common_prefix_len(&node.prefix, key, start);
                let ghost p = base + old_node.prefix@;
                if cl == plen {
                    proof {
                        assert(p =~= key@.take(start + plen));
                    }
                    if start + plen == key.len() {
                        proof {
                            assert(p =~= key@);
                            lemma_keyed_ms_push(p, old_node.rules@, rule);
                        }
                        node.rules.push(rule);
                        *c = Some(node);
                    } else {
                        insert_chain(&mut node.child, key, start + plen, rule);
                        *c = Some(node);
                    }
                    proof {
                        assert(chain_ms(*c, base) =~= chain_ms(Some(Box::new(old_node)), base).insert((key@, rule@)));
                        assert forall|ch: char| has_first(*c, ch) == (has_first(Some(Box::new(old_node)), ch) || ch == key@[start as int]) by {}
                    }
                } else {
                    // Split the node at `cl`: a new intermediate node holds the
                    // common part, the old node keeps the rest of its prefix.
                    let common = subvec(&node.prefix, 0, cl);
                    let old_suffix = subvec(&node.prefix, cl, plen);
                    let sb = node.sibling.take();
                    node.prefix = old_suffix;
                    let ghost q = base + common@;
                    let mut inter_rules: Vec<Rule> = Vec::new();
                    proof {
                        assert(q + old_suffix@ =~= p);
                        assert(q =~= key@.take(start + cl));
                        lemma_keyed_ms_empty(q, Seq::empty());
                        lemma_keyed_ms_empty(q, inter_rules@);
                    }
                    if start + cl == key.len() {
                        proof {
                            assert(q =~= key@);
                            lemma_keyed_ms_push(q, inter_rules@, rule);
                        }
                        inter_rules.push(rule);
                        assert(node.sibling is None);
                        assert(chain_ms(node.sibling, q) =~= Multiset::empty());
                        assert(keyed_ms(q, inter_rules@).add(chain_ms(node.sibling, q)) =~= Multiset::empty().insert((key@, rule@)));
                    } else {
                        let new_leaf = leaf(subvec(key, start + cl, key.len()), rule);
                        proof {
                            assert(q + new_leaf.prefix@ =~= key@);
                            lemma_keyed_ms_push(key@, Seq::empty(), new_leaf.rules@[0]);
                            assert(new_leaf.rules@ =~= Seq::<Rule>::empty().push(new_leaf.rules@[0]));
                            lemma_keyed_ms_empty(key@, Seq::empty());
                            assert(old_suffix@[0] == old_node.prefix@[cl as int]);
                            assert(new_leaf.prefix@[0] == key@[start + cl]);
                        }
                        node.sibling = Some(Box::new(new_leaf));
                        proof {
                            assert(chain_wf(new_leaf.child));
                            assert(chain_wf(new_leaf.sibling));
                            assert(!has_first(new_leaf.sibling, new_leaf.prefix@[0]));
                            assert(chain_wf(node.sibling));
                            assert(!has_first(new_leaf.sibling, old_suffix@[0]));
                            assert(!has_first(node.sibling, old_suffix@[0]));
                            assert(chain_ms(node.sibling, q) =~= keyed_ms(key@, new_leaf.rules@).add(chain_ms(None, q + new_leaf.prefix@)).add(chain_ms(None, q)));
                            assert(keyed_ms(q, inter_rules@).add(chain_ms(node.sibling, q)) =~= Multiset::empty().insert((key@, rule@)));
                        }
                    }
                    let ghost node_v = *node;
                    proof {
                        assert(node_v.prefix@ == old_suffix@);
                        assert(node_v.rules == old_node.rules);
                        assert(node_v.child == old_node.child);
                        assert(chain_wf(node_v.sibling));
                        assert(!has_first(node_v.sibling, node_v.prefix@[0]));
                        assert(chain_wf(Some(node)));
                        let q2 = q + node_v.prefix@;
                        assert(q2 =~= p);
                        assert(chain_ms(Some(node), q) =~= keyed_ms(p, old_node.rules@).add(chain_ms(old_node.child, p)).add(chain_ms(node_v.sibling, q)));
                    }
                    let inter = RadixNode { prefix: common, rules: inter_rules, child: Some(node), sibling: sb };
                    proof {
                        assert(inter.prefix@[0] == old_node.prefix@[0]);
                        assert(chain_wf(Some(Box::new(inter))));
                        assert(keyed_ms(q, inter.rules@).add(chain_ms(node_v.sibling, q)) =~= Multiset::empty().insert((key@, rule@)));
                        assert forall|ch: char| has_first(Some(Box::new(inter)), ch) == (has_first(Some(Box::new(old_node)), ch) || ch == key@[start as int]) by {
                        }
                        assert(chain_ms(Some(Box::new(inter)), base) =~= chain_ms(Some(Box::new(old_node)), base).insert((key@, rule@)));
                    }
                    *c = Some(Box::new(inter));
                }
            }
        },
    }
}


// ── Matching ─────────────────────────────────────────────────────────────────

/// Some stored rule with the given action fires for the request: its domain
/// is the requested one or a parent of it, and its context conditions hold.
pub open spec fn has_match(
    ms: Multiset<Entry>,
    q: Seq<char>,
    origin: Option<Seq<char>>,
    mask: u16,
    third_party: bool,
    action: Action,
) -> bool {
    exists|e: Entry|
        #![trigger ms.count(e)]
        ms.count(e) > 0 && label_prefix(e.0, q) && fires_as(e.1, origin, mask, third_party, action)
}

/// The verdict of a set of rules on a request (domain `q` and origin both
/// reversed): an allowing rule always wins, otherwise a blocking rule blocks.
pub open spec fn blocked_by(
    ms: Multiset<Entry>,
    q: Seq<char>,
    origin: Option<Seq<char>>,
    mask: u16,
    third_party: bool,
) -> bool {
    !has_match(ms, q, origin, mask, third_party, Action::Allow) && has_match(
        ms,
        q,
        origin,
        mask,
        third_party,
        Action::Block,
    )
}

proof fn lemma_has_match_add(
    a: Multiset<Entry>,
    b: Multiset<Entry>,
    q: Seq<char>,
    origin: Option<Seq<char>>,
    mask: u16,
    tp: bool,
    action: Action,
)
    ensures
        has_match(a.add(b), q, origin, mask, tp, action) == (has_match(a, q, origin, mask, tp, action)
            || has_match(b, q, origin, mask, tp, action)),
{
    if has_match(a.add(b), q, origin, mask, tp, action) {
        let e = choose|e: Entry|
            #![trigger a.add(b).count(e)]
            a.add(b).count(e) > 0 && label_prefix(e.0, q) && fires_as(e.1, origin, mask, tp, action);
        assert(a.count(e) > 0 || b.count(e) > 0);
    }
    if has_match(a, q, origin, mask, tp, action) {
        let e = choose|e: Entry|
            #![trigger a.count(e)]
            a.count(e) > 0 && label_prefix(e.0, q) && fires_as(e.1, origin, mask, tp, action);
        assert(a.add(b).count(e) > 0);
    }
    if has_match(b, q, origin, mask, tp, action) {
        let e = choose|e: Entry|
            #![trigger b.count(e)]
            b.count(e) > 0 && label_prefix(e.0, q) && fires_as(e.1, origin, mask, tp, action);
        assert(a.add(b).count(e) > 0);
    }
}

/// Some rule of `rules` fires with the given action.
pub open spec fn rules_fire(
    rules: Seq<Rule>,
    origin: Option<Seq<char>>,
    mask: u16,
    tp: bool,
    action: Action,
) -> bool {
    exists|i: int| 0 <= i < rules.len() && fires_as((#[trigger] rules[i])@, origin, mask, tp, action)
}

proof fn lemma_has_match_keyed(
    key: Seq<char>,
    rules: Seq<Rule>,
    q: Seq<char>,
    origin: Option<Seq<char>>,
    mask: u16,
    tp: bool,
    action: Action,
)
    ensures
        has_match(keyed_ms(key, rules), q, origin, mask, tp, action) == (label_prefix(key, q) && rules_fire(
            rules,
            origin,
            mask,
            tp,
            action,
        )),
{
    let s = rules.map_values(|r: Rule| (key, r@));
    if has_match(keyed_ms(key, rules), q, origin, mask, tp, action) {
        let e = choose|e: Entry|
            #![trigger keyed_ms(key, rules).count(e)]
            keyed_ms(key, rules).count(e) > 0 && label_prefix(e.0, q) && fires_as(e.1, origin, mask, tp, action);
        lemma_keyed_ms_key(key, rules, e);
    }
    if label_prefix(key, q) && rules_fire(rules, origin, mask, tp, action) {
        let i = choose|i: int| 0 <= i < rules.len() && fires_as((#[trigger] rules[i])@, origin, mask, tp, action);
        assert(s[i] == (key, rules[i]@));
        assert(s.contains(s[i]));
        assert(keyed_ms(key, rules).count(s[i]) > 0);
    }
}

/// No entry of `ms` names `q` or a parent of it.
proof fn lemma_no_match_if_no_prefix(
    ms: Multiset<Entry>,
    q: Seq<char>,
    origin: Option<Seq<char>>,
    mask: u16,
    tp: bool,
    action: Action,
)
    requires
        forall|e: Entry| #[trigger] ms.count(e) > 0 ==> !label_prefix(e.0, q),
    ensures
        !has_match(ms, q, origin, mask, tp, action),
{
}

/// Evaluates the rules of one node.
fn eval_rules(rules: &Vec<Rule>, origin: Option<&[char]>, mask: u16, tp: bool) -> (r: (bool, bool))
    ensures
        r.0 == rules_fire(rules@, opt_view(origin), mask, tp, Action::Allow),
        r.1 == rules_fire(rules@, opt_view(origin), mask, tp, Action::Block),
{
    let n = rules.len();
    let mut allow = false;
    let mut block = false;
    let mut i: usize = 0;
    while i < n
        invariant
            n == rules@.len(),
            i <= n,
            allow == exists|j: int| 0 <= j < i && fires_as((#[trigger] rules@[j])@, opt_view(origin), mask, tp, Action::Allow),
            block == exists|j: int| 0 <= j < i && fires_as((#[trigger] rules@[j])@, opt_view(origin), mask, tp, Action::Block),
        decreases n - i,
    {
        if rules[i].matches_context(origin, mask, tp) {
            match rules[i].action_on(origin) {
                Action::Allow => { allow = true; },
                _ => { block = true; },
            }
        }
        i = i + 1;
    }
    (allow, block)
}

/// The view of an optional character slice.
pub open spec fn opt_view(o: Option<&[char]>) -> Option<Seq<char>> {
    match o {
        Some(s) => Some(s@),
        None => None,
    }
}

/// Walks the chain under path `q[..start]` along `q`, evaluating every node
/// whose path is `q` or a parent of it. Stops descending once an allowing
/// rule has fired.
fn query_chain(
    c: &Option<Box<RadixNode>>,
    q: &[char],
    start: usize,
    origin: Option<&[char]>,
    mask: u16,
    tp: bool,
) -> (r: (bool, bool))
    requires
        chain_wf(*c),
        start <= q@.len(),
    ensures
        r.0 == has_match(chain_ms(*c, q@.take(start as int)), q@, opt_view(origin), mask, tp, Action::Allow),
        !r.0 ==> r.1 == has_match(chain_ms(*c, q@.take(start as int)), q@, opt_view(origin), mask, tp, Action::Block),
    decreases *c,
{
    let ghost base = q@.take(start as int);
    let ghost ov = opt_view(origin);
    proof {
        lemma_chain_keys(*c, base);
    }
    if start == q.len() {
        proof {
            assert forall|e: Entry| #[trigger] chain_ms(*c, base).count(e) > 0 implies !label_prefix(e.0, q@) by {}
            lemma_no_match_if_no_prefix(chain_ms(*c, base), q@, ov, mask, tp, Action::Allow);
            lemma_no_match_if_no_prefix(chain_ms(*c, base), q@, ov, mask, tp, Action::Block);
        }
        return (false, false);
    }
    match c {
        None => {
            proof {
                lemma_no_match_if_no_prefix(chain_ms(*c, base), q@, ov, mask, tp, Action::Allow);
                lemma_no_match_if_no_prefix(chain_ms(*c, base), q@, ov, mask, tp, Action::Block);
            }
            (false, false)
        },
        Some(node) => {
            let ghost p = base + node.prefix@;
            let ghost own = keyed_ms(p, node.rules@).add(chain_ms(node.child, p));
            let ghost sib = chain_ms(node.sibling, base);
            proof {
                lemma_chain_keys(node.sibling, base);
                lemma_node_keys(**node, base);
                lemma_has_match_add(own, sib, q@, ov, mask, tp, Action::Allow);
                lemma_has_match_add(own, sib, q@, ov, mask, tp, Action::Block);
                lemma_has_match_add(keyed_ms(p, node.rules@), chain_ms(node.child, p), q@, ov, mask, tp, Action::Allow);
                lemma_has_match_add(keyed_ms(p, node.rules@), chain_ms(node.child, p), q@, ov, mask, tp, Action::Block);
                lemma_has_match_keyed(p, node.rules@, q@, ov, mask, tp, Action::Allow);
                lemma_has_match_keyed(p, node.rules@, q@, ov, mask, tp, Action::Block);
            }
            if node.prefix[0] != q[start] {
                proof {
                    assert forall|e: Entry| #[trigger] own.count(e) > 0 implies !label_prefix(e.0, q@) by {
                        if label_prefix(e.0, q@) {
                            assert(e.0[start as int] == p[start as int]);
                            assert(q@[start as int] == e.0[start as int]);
                        }
                    }
                    lemma_no_match_if_no_prefix(own, q@, ov, mask, tp, Action::Allow);
                    lemma_no_match_if_no_prefix(own, q@, ov, mask, tp, Action::Block);
                }
                return query_chain(&node.sibling, q, start, origin, mask, tp);
            }
            proof {
                assert forall|e: Entry| #[trigger] sib.count(e) > 0 implies !label_prefix(e.0, q@) by {
                    if label_prefix(e.0, q@) {
                        assert(q@[start as int] == e.0[start as int]);
                    }
                }
                lemma_no_match_if_no_prefix(sib, q@, ov, mask, tp, Action::Allow);
                lemma_no_match_if_no_prefix(sib, q@, ov, mask, tp, Action::Block);
            }
            let plen = node.prefix.len();
            if plen > q.len() - start || !prefix_matches(&node.prefix, q, start) {
                proof {
                    assert forall|e: Entry| #[trigger] own.count(e) > 0 implies !label_prefix(e.0, q@) by {
                        if label_prefix(e.0, q@) {
                            assert(q@.take(p.len() as int) =~= e.0.take(p.len() as int));
                            assert forall|j: int| 0 <= j < plen implies q@[start + j] == node.prefix@[j] by {
                                assert(p[start + j] == node.prefix@[j]);
                            }
                        }
                    }
                    lemma_no_match_if_no_prefix(own, q@, ov, mask, tp, Action::Allow);
                    lemma_no_match_if_no_prefix(own, q@, ov, mask, tp, Action::Block);
                }
                return (false, false);
            }
            let end = start + plen;
            proof {
                assert(p =~= q@.take(end as int));
            }
            let here = end == q.len() || q[end] == '.';
            proof {
                if end == q.len() {
                    assert(p =~= q@);
                } else {
                    assert(p.len() < q@.len());
                }
                assert(here == label_prefix(p, q@));
            }
            let (allow, block) = if here {
                eval_rules(&node.rules, origin, mask, tp)
            } else {
                (false, false)
            };
            if allow {
                return (true, block);
            }
            let (ca, cb) = query_chain(&node.child, q, end, origin, mask, tp);
            (ca, block || cb)
        },
    }
}

/// `q[start..]` begins with `p` (given that it is long enough).
fn prefix_matches(p: &[char], q: &[char], start: usize) -> (r: bool)
    requires
        start + p@.len() <= q@.len(),
    ensures
        r == forall|j: int| 0 <= j < p@.len() ==> q@[start + j] == p@[j],
{
    let n = p.len();
    let qn = q.len();
    let mut i: usize = 0;
    while i < n
        invariant
            n == p@.len(),
            qn == q@.len(),
            start + n <= q@.len(),
            i <= n,
            forall|j: int| 0 <= j < i ==> q@[start + j] == p@[j],
        decreases n - i,
    {
        if q[start + i] != p[i] {
            return false;
        }
        i = i + 1;
    }
    true
}


// ── The tree ─────────────────────────────────────────────────────────────────

/// Radix tree over reversed domain labels: a rule for `ads.example.com` is
/// stored under the path `com.example.ads`.
pub struct DomainTree {
    pub(crate) top: Option<Box<RadixNode>>,
}

/// A blocking rule for every origin, resource type and party.
pub open spec fn universal_block() -> RuleView {
    RuleView { action: Action::Block, origin: OriginView::Any, resource_mask: 0, third_party_only: false }
}

/// A rule that acts only on the origin `origin` (and its subdomains).
pub open spec fn origin_rule(action: Action, origin: Seq<char>) -> RuleView {
    RuleView {
        action,
        origin: OriginView::OnlyOn(seq![reverse_domain(origin)]),
        resource_mask: 0,
        third_party_only: false,
    }
}

/// The origins of a constraint with their labels reversed.
pub open spec fn reverse_origins(o: OriginView) -> OriginView {
    match o {
        OriginView::Any => OriginView::Any,
        OriginView::OnlyOn(l) => OriginView::OnlyOn(l.map_values(|d: Seq<char>| reverse_domain(d))),
        OriginView::ExceptOn(l) => OriginView::ExceptOn(l.map_values(|d: Seq<char>| reverse_domain(d))),
    }
}

/// An optional origin with its labels reversed.
pub open spec fn reverse_opt(o: Option<Seq<char>>) -> Option<Seq<char>> {
    match o {
        Some(s) => Some(reverse_domain(s)),
        None => None,
    }
}

/// The answer of a query on the rules `ms` for `domain` requested from
/// `origin` (both as written, not reversed).
pub open spec fn query(ms: Multiset<Entry>, domain: Seq<char>, origin: Option<Seq<char>>, mask: u16, third_party: bool) -> bool {
    domain.len() > 0 && blocked_by(ms, reverse_domain(domain), reverse_opt(origin), mask, third_party)
}

/// The third-party guess of `is_blocked_with_origin`: the origin does not end
/// with the requested domain and is not equal to it.
pub open spec fn guessed_third_party(domain: Seq<char>, origin: Option<Seq<char>>) -> bool {
    match origin {
        Some(o) => !ends_with(o, domain) && o != domain,
        None => false,
    }
}

/// The rules stored for a list of domains inserted one after another as
/// universal blocks (empty names are skipped).
pub open spec fn bulk_entries(ds: Seq<Seq<char>>) -> Multiset<Entry>
    decreases ds.len(),
{
    if ds.len() == 0 {
        Multiset::empty()
    } else if ds.last().len() == 0 {
        bulk_entries(ds.drop_last())
    } else {
        bulk_entries(ds.drop_last()).insert((reverse_domain(ds.last()), universal_block()))
    }
}

impl View for DomainTree {
    type V = Multiset<Entry>;

    closed spec fn view(&self) -> Multiset<Entry> {
        chain_ms(self.top, Seq::empty())
    }
}

/// The rules of a tree are those of its top chain.
pub(crate) proof fn lemma_tree_view(t: DomainTree)
    ensures
        t@ == chain_ms(t.top, Seq::empty()),
{
}

impl DomainTree {
    #[verifier::type_invariant]
    pub(crate) open spec fn well_formed(self) -> bool {
        chain_wf(self.top)
    }

    pub fn new() -> (t: Self)
        ensures
            t@ == Multiset::<Entry>::empty(),
    {
        let t = DomainTree { top: None };
        assert(t@ =~= Multiset::<Entry>::empty());
        t
    }

    /// Universal block rule.
    pub fn insert(&mut self, domain: &str) -> (ok: bool)
        ensures
            ok == (domain@.len() > 0),
            final(self)@ == if ok {
                old(self)@.insert((reverse_domain(domain@), universal_block()))
            } else {
                old(self)@
            },
    {
        let rule = Rule {
            action: Action::Block,
            origin_constraint: OriginConstraint::Any,
            resource_mask: 0,
            third_party_only: false,
        };
        self.insert_rule(domain, rule)
    }

    /// Whitelist for a specific origin: the domain is blocked everywhere
    /// except on `origin` (and its subdomains). One rule is stored, which
    /// allows on the origin and blocks on every other origin.
    pub fn insert_with_whitelist(&mut self, domain: &str, origin: &str) -> (ok: bool)
        ensures
            ok == (origin@.len() > 0 && domain@.len() > 0),
            final(self)@ == if ok {
                old(self)@.insert((reverse_domain(domain@), origin_rule(Action::Whitelist, origin@)))
            } else {
                old(self)@
            },
    {
        if chars_of(origin).len() == 0 {
            return false;
        }
        let rule = Rule {
            action: Action::Whitelist,
            origin_constraint: OriginConstraint::OnlyOn(Self::reversed_one(origin)),
            resource_mask: 0,
            third_party_only: false,
        };
        self.insert_rule(domain, rule)
    }

    /// "Block only on this origin" rule.
    pub fn insert_with_blacklist(&mut self, domain: &str, origin: &str) -> (ok: bool)
        ensures
            ok == (origin@.len() > 0 && domain@.len() > 0),
            final(self)@ == if ok {
                old(self)@.insert((reverse_domain(domain@), origin_rule(Action::Block, origin@)))
            } else {
                old(self)@
            },
    {
        if chars_of(origin).len() == 0 {
            return false;
        }
        let rule = Rule {
            action: Action::Block,
            origin_constraint: OriginConstraint::OnlyOn(Self::reversed_one(origin)),
            resource_mask: 0,
            third_party_only: false,
        };
        self.insert_rule(domain, rule)
    }

    /// Full-featured insert with resource type and third-party support.
    /// Origins inside `origin_constraint` are plain domain strings (not yet
    /// reversed); this function reverses them.
    pub fn insert_with_modifiers(
        &mut self,
        domain: &str,
        action: Action,
        origin_constraint: OriginConstraint,
        resource_mask: u16,
        third_party_only: bool,
    ) -> (ok: bool)
        ensures
            ok == (domain@.len() > 0),
            final(self)@ == if ok {
                old(self)@.insert(
                    (
                        reverse_domain(domain@),
                        RuleView {
                            action,
                            origin: reverse_origins(origin_constraint@),
                            resource_mask,
                            third_party_only,
                        },
                    ),
                )
            } else {
                old(self)@
            },
    {
        let reversed_constraint = match origin_constraint {
            OriginConstraint::Any => OriginConstraint::Any,
            OriginConstraint::OnlyOn(o) => OriginConstraint::OnlyOn(Self::reversed_all(&o)),
            OriginConstraint::ExceptOn(o) => OriginConstraint::ExceptOn(Self::reversed_all(&o)),
        };
        let rule = Rule { action, origin_constraint: reversed_constraint, resource_mask, third_party_only };
        self.insert_rule(domain, rule)
    }

    /// `domain` with its labels reversed, as a string.
    fn reverse_str(domain: &str) -> (r: String)
        ensures
            r@ == reverse_domain(domain@),
    {
        let d = chars_of(domain);
        let rev = reverse_domain_chars(&d);
        string_of(&rev)
    }

    fn reversed_one(origin: &str) -> (r: Vec<String>)
        ensures
            r.deep_view() == seq![reverse_domain(origin@)],
    {
        let mut v: Vec<String> = Vec::new();
        v.push(Self::reverse_str(origin));
        assert(v.deep_view() =~= seq![reverse_domain(origin@)]);
        v
    }

    fn reversed_all(origins: &Vec<String>) -> (r: Vec<String>)
        ensures
            r.deep_view() == origins.deep_view().map_values(|d: Seq<char>| reverse_domain(d)),
    {
        let n = origins.len();
        let mut v: Vec<String> = Vec::new();
        let mut i: usize = 0;
        while i < n
            invariant
                n == origins@.len(),
                i <= n,
                v.deep_view() =~= origins.deep_view().take(i as int).map_values(|d: Seq<char>| reverse_domain(d)),
            decreases n - i,
        {
            let r = Self::reverse_str(origins[i].as_str());
            let ghost old_v = v.deep_view();
            v.push(r);
            assert(v.deep_view() =~= old_v.push(r@));
            assert(origins.deep_view().take(i + 1) =~= origins.deep_view().take(i as int).push(origins@[i as int]@));
            assert(origins.deep_view().take(i + 1).map_values(|d: Seq<char>| reverse_domain(d)) =~= origins.deep_view().take(i as int).map_values(|d: Seq<char>| reverse_domain(d)).push(reverse_domain(origins@[i as int]@)));
            i = i + 1;
        }
        assert(origins.deep_view().take(n as int) =~= origins.deep_view());
        v
    }

    fn insert_rule(&mut self, domain: &str, rule: Rule) -> (ok: bool)
        ensures
            ok == (domain@.len() > 0),
            final(self)@ == if ok {
                old(self)@.insert((reverse_domain(domain@), rule@))
            } else {
                old(self)@
            },
    {
        let d = chars_of(domain);
        if d.len() == 0 {
            return false;
        }
        let reversed = reverse_domain_chars(&d);
        proof {
            lemma_reverse_domain_len(d@);
            use_type_invariant(&*self);
            assert(reversed@.take(0) =~= Seq::<char>::empty());
        }
        let mut top: Option<Box<RadixNode>> = None;
        std::mem::swap(&mut top, &mut self.top);
        insert_chain(&mut top, &reversed, 0, rule);
        self.top = top;
        true
    }

    pub fn is_blocked(&self, domain: &str) -> (r: bool)
        ensures
            r == query(self@, domain@, None, 0, false),
    {
        self.is_blocked_ex(domain, None, 0, false)
    }

    /// Query with an origin; the request counts as third-party when the
    /// origin neither ends with the domain nor equals it.
    pub fn is_blocked_with_origin(&self, domain: &str, origin: Option<&str>) -> (r: bool)
        ensures
            r == query(self@, domain@, match origin { Some(o) => Some(o@), None => None }, 0,
                guessed_third_party(domain@, match origin { Some(o) => Some(o@), None => None })),
    {
        let d = chars_of(domain);
        let is_third_party = match origin {
            Some(o) => {
                let oc = chars_of(o);
                !ends_with_exec(&oc, &d) && !eq_chars(&oc, &d)
            },
            None => false,
        };
        self.is_blocked_ex(domain, origin, 0, is_third_party)
    }

    /// Full check with all modifiers.
    pub fn is_blocked_ex(&self, domain: &str, origin: Option<&str>, resource_mask: u16, is_third_party: bool) -> (r: bool)
        ensures
            r == query(self@, domain@, match origin { Some(o) => Some(o@), None => None }, resource_mask, is_third_party),
    {
        let d = chars_of(domain);
        if d.len() == 0 {
            return false;
        }
        let reversed = reverse_domain_chars(&d);
        proof {
            use_type_invariant(self);
            assert(reversed@.take(0) =~= Seq::<char>::empty());
        }
        let (allow, block) = match origin {
            Some(o) => {
                let oc = chars_of(o);
                let ro = reverse_domain_chars(&oc);
                query_chain(&self.top, &reversed, 0, Some(ro.as_slice()), resource_mask, is_third_party)
            },
            None => query_chain(&self.top, &reversed, 0, None, resource_mask, is_third_party),
        };
        !allow && block
    }

    pub fn bulk_load(&mut self, domains: &[&str])
        ensures
            final(self)@ == old(self)@.add(bulk_entries(domains@.map_values(|d: &str| d@))),
    {
        let n = domains.len();
        let mut i: usize = 0;
        let ghost ds = domains@.map_values(|d: &str| d@);
        assert(ds.take(0) =~= Seq::<Seq<char>>::empty());
        assert(old(self)@ =~= old(self)@.add(bulk_entries(Seq::empty())));
        while i < n
            invariant
                n == domains@.len(),
                ds == domains@.map_values(|d: &str| d@),
                i <= n,
                self@ == old(self)@.add(bulk_entries(ds.take(i as int))),
            decreases n - i,
        {
            self.insert(domains[i]);
            assert(ds.take(i + 1).drop_last() =~= ds.take(i as int));
            assert(ds.take(i + 1).last() == domains@[i as int]@);
            i = i + 1;
        }
        assert(ds.take(n as int) =~= ds);
    }
}


/// The number of stored rules, capped at `usize::MAX`.
fn count_chain(c: &Option<Box<RadixNode>>, Ghost(base): Ghost<Seq<char>>) -> (r: usize)
    ensures
        r == if chain_ms(*c, base).len() <= usize::MAX { chain_ms(*c, base).len() } else { usize::MAX as nat },
    decreases *c,
{
    match c {
        None => 0,
        Some(node) => {
            let ghost p = base + node.prefix@;
            proof {
                to_multiset_len(node.rules@.map_values(|r: Rule| (p, r@)));
            }
            let a = node.rules.len();
            let b = count_chain(&node.child, Ghost(p));
            let d = count_chain(&node.sibling, Ghost(base));
            a.saturating_add(b).saturating_add(d)
        },
    }
}

/// Some entry of `ms` has the reversed-back key `s`.
pub open spec fn names_key(ms: Multiset<Entry>, s: Seq<char>) -> bool {
    exists|e: Entry| #![trigger ms.count(e)] ms.count(e) > 0 && s == reverse_domain(e.0)
}

proof fn lemma_names_key_add(a: Multiset<Entry>, b: Multiset<Entry>, s: Seq<char>)
    ensures
        names_key(a.add(b), s) == (names_key(a, s) || names_key(b, s)),
{
    if names_key(a.add(b), s) {
        let e = choose|e: Entry| #![trigger a.add(b).count(e)] a.add(b).count(e) > 0 && s == reverse_domain(e.0);
        assert(a.count(e) > 0 || b.count(e) > 0);
    }
    if names_key(a, s) {
        let e = choose|e: Entry| #![trigger a.count(e)] a.count(e) > 0 && s == reverse_domain(e.0);
        assert(a.add(b).count(e) > 0);
    }
    if names_key(b, s) {
        let e = choose|e: Entry| #![trigger b.count(e)] b.count(e) > 0 && s == reverse_domain(e.0);
        assert(a.add(b).count(e) > 0);
    }
}

proof fn lemma_names_key_keyed(key: Seq<char>, rules: Seq<Rule>, s: Seq<char>)
    ensures
        names_key(keyed_ms(key, rules), s) == (rules.len() > 0 && s == reverse_domain(key)),
{
    let own = keyed_ms(key, rules);
    if names_key(own, s) {
        let e = choose|e: Entry| #![trigger own.count(e)] own.count(e) > 0 && s == reverse_domain(e.0);
        lemma_keyed_ms_key(key, rules, e);
    }
    if rules.len() > 0 && s == reverse_domain(key) {
        let e = (key, rules[0]@);
        let sq = rules.map_values(|r: Rule| (key, r@));
        assert(sq[0] == e);
        assert(sq.contains(e));
        assert(own.count(e) > 0);
    }
}

/// No string occurs twice.
pub open spec fn no_dups(s: Seq<Seq<char>>) -> bool {
    forall|i: int, j: int| 0 <= i < j < s.len() ==> s[i] != s[j]
}

proof fn lemma_no_dups_concat(a: Seq<Seq<char>>, b: Seq<Seq<char>>)
    requires
        no_dups(a),
        no_dups(b),
        forall|s: Seq<char>| a.contains(s) ==> !b.contains(s),
    ensures
        no_dups(a + b),
{
    let c = a + b;
    assert forall|i: int, j: int| 0 <= i < j < c.len() implies c[i] != c[j] by {
        if i < a.len() && j >= a.len() {
            assert(a.contains(c[i]));
            assert(b[j - a.len()] == c[j]);
            assert(b.contains(c[j]));
        } else if i >= a.len() {
            assert(c[i] == b[i - a.len()] && c[j] == b[j - a.len()]);
        }
    }
}

pub(crate) proof fn lemma_concat_contains(a: Seq<Seq<char>>, b: Seq<Seq<char>>, x: Seq<char>)
    ensures
        (a + b).contains(x) <==> (a.contains(x) || b.contains(x)),
{
    if (a + b).contains(x) {
        let k = choose|k: int| 0 <= k < (a + b).len() && (a + b)[k] == x;
        if k < a.len() {
            assert(a[k] == x);
        } else {
            assert(b[k - a.len()] == x);
        }
    }
    if a.contains(x) {
        let k = choose|k: int| 0 <= k < a.len() && a[k] == x;
        assert((a + b)[k] == x);
    }
    if b.contains(x) {
        let k = choose|k: int| 0 <= k < b.len() && b[k] == x;
        assert((a + b)[a.len() + k] == x);
    }
}

/// The path of a node is named by no key below it.
proof fn lemma_path_not_below(child: Option<Box<RadixNode>>, p: Seq<char>)
    requires
        chain_wf(child),
    ensures
        !names_key(chain_ms(child, p), reverse_domain(p)),
{
    lemma_chain_keys(child, p);
    if names_key(chain_ms(child, p), reverse_domain(p)) {
        let e = choose|e: Entry| #![trigger chain_ms(child, p).count(e)] chain_ms(child, p).count(e) > 0 && reverse_domain(p) == reverse_domain(e.0);
        lemma_reverse_domain_involutive(p);
        lemma_reverse_domain_involutive(e.0);
    }
}

/// A key at or below a node is named by no key of the node's later siblings.
proof fn lemma_sibling_names_apart(n: RadixNode, base: Seq<char>, s: Seq<char>)
    requires
        n.prefix@.len() > 0,
        !has_first(n.sibling, n.prefix@[0]),
        chain_wf(n.child),
        chain_wf(n.sibling),
        names_key(keyed_ms(base + n.prefix@, n.rules@).add(chain_ms(n.child, base + n.prefix@)), s),
    ensures
        !names_key(chain_ms(n.sibling, base), s),
{
    let p = base + n.prefix@;
    let m = keyed_ms(p, n.rules@).add(chain_ms(n.child, p));
    let e1 = choose|e: Entry| #![trigger m.count(e)] m.count(e) > 0 && s == reverse_domain(e.0);
    lemma_node_keys(n, base);
    assert(keyed_ms(p, n.rules@).count(e1) > 0 || chain_ms(n.child, p).count(e1) > 0);
    assert(e1.0.take(p.len() as int) == p);
    assert(e1.0[base.len() as int] == e1.0.take(p.len() as int)[base.len() as int]);
    assert(e1.0[base.len() as int] == n.prefix@[0]);
    lemma_chain_keys(n.sibling, base);
    if names_key(chain_ms(n.sibling, base), s) {
        let e2 = choose|e: Entry| #![trigger chain_ms(n.sibling, base).count(e)] chain_ms(n.sibling, base).count(e) > 0 && s == reverse_domain(e.0);
        lemma_reverse_domain_involutive(e1.0);
        lemma_reverse_domain_involutive(e2.0);
        assert(e1.0 == e2.0);
    }
}

proof fn lemma_keyed_ms_len(key: Seq<char>, rules: Seq<Rule>)
    ensures
        keyed_ms(key, rules).len() == rules.len(),
{
    to_multiset_len(rules.map_values(|r: Rule| (key, r@)));
}

/// Appends the reversed-back key of every node with rules: each key once,
/// at most one string per stored rule.
fn collect_chain(c: &Option<Box<RadixNode>>, base: &Vec<char>, out: &mut Vec<String>)
    requires
        chain_wf(*c),
    ensures
        old(out).deep_view().len() <= final(out).deep_view().len(),
        final(out).deep_view().take(old(out).deep_view().len() as int) == old(out).deep_view(),
        no_dups(final(out).deep_view().skip(old(out).deep_view().len() as int)),
        forall|s: Seq<char>|
            #![trigger final(out).deep_view().skip(old(out).deep_view().len() as int).contains(s)]
            final(out).deep_view().skip(old(out).deep_view().len() as int).contains(s) <==> names_key(
                chain_ms(*c, base@),
                s,
            ),
        final(out).deep_view().len() - old(out).deep_view().len() <= chain_ms(*c, base@).len(),
    decreases *c,
{
    let ghost start = out.deep_view();
    match c {
        None => {
            proof {
                assert(out.deep_view().skip(start.len() as int) =~= Seq::<Seq<char>>::empty());
                assert(out.deep_view().take(start.len() as int) =~= start);
            }
        },
        Some(node) => {
            let mut p: Vec<char> = Vec::new();
            append_chars(&mut p, base);
            append_chars(&mut p, &node.prefix);
            assert(p@ =~= base@ + node.prefix@);
            let ghost own_ms = keyed_ms(p@, node.rules@);
            let ghost own: Seq<Seq<char>> = if node.rules@.len() > 0 { seq![reverse_domain(p@)] } else { Seq::empty() };
            if node.rules.len() > 0 {
                let d = string_of(&reverse_domain_chars(&p));
                out.push(d);
            }
            let ghost mid = out.deep_view();
            assert(mid =~= start + own);
            collect_chain(&node.child, &p, out);
            let ghost after_child = out.deep_view();
            let ghost ca = after_child.skip(mid.len() as int);
            assert(after_child =~= mid + ca);
            collect_chain(&node.sibling, base, out);
            let ghost fin = out.deep_view();
            let ghost sa = fin.skip(after_child.len() as int);
            assert(fin =~= after_child + sa);
            proof {
                let added = fin.skip(start.len() as int);
                assert(added =~= own + ca + sa);
                assert(fin.take(start.len() as int) =~= start);
                let child_ms = chain_ms(node.child, p@);
                let sib_ms = chain_ms(node.sibling, base@);
                // Which strings were added.
                assert forall|s: Seq<char>| own.contains(s) <==> names_key(own_ms, s) by {
                    lemma_names_key_keyed(p@, node.rules@, s);
                    if own.contains(s) {
                        let i = choose|i: int| 0 <= i < own.len() && own[i] == s;
                    }
                    if names_key(own_ms, s) {
                        assert(own[0] == s);
                    }
                }
                assert forall|s: Seq<char>| #![trigger added.contains(s)] added.contains(s) <==> names_key(chain_ms(*c, base@), s) by {
                    lemma_concat_contains(own, ca, s);
                    lemma_concat_contains(own + ca, sa, s);
                    lemma_names_key_add(own_ms, child_ms, s);
                    lemma_names_key_add(own_ms.add(child_ms), sib_ms, s);
                    assert(ca.contains(s) <==> names_key(child_ms, s));
                    assert(sa.contains(s) <==> names_key(sib_ms, s));
                }
                // No repetitions.
                assert(no_dups(own));
                lemma_path_not_below(node.child, p@);
                assert forall|s: Seq<char>| own.contains(s) implies !ca.contains(s) by {
                    let i = choose|i: int| 0 <= i < own.len() && own[i] == s;
                    assert(s == reverse_domain(p@));
                    assert(ca.contains(s) <==> names_key(child_ms, s));
                }
                lemma_no_dups_concat(own, ca);
                assert forall|s: Seq<char>| (own + ca).contains(s) implies !sa.contains(s) by {
                    lemma_concat_contains(own, ca, s);
                    lemma_names_key_add(own_ms, child_ms, s);
                    assert(ca.contains(s) ==> names_key(child_ms, s));
                    assert(own.contains(s) ==> names_key(own_ms, s));
                    lemma_sibling_names_apart(**node, base@, s);
                    assert(sa.contains(s) <==> names_key(sib_ms, s));
                }
                lemma_no_dups_concat(own + ca, sa);
                // At most one string per rule.
                lemma_keyed_ms_len(p@, node.rules@);
                assert(own.len() <= own_ms.len());
            }
        },
    }
}

impl DomainTree {
    /// The number of stored rules (capped at `usize::MAX`).
    pub fn count_blocked(&self) -> (r: usize)
        ensures
            r == if self@.len() <= usize::MAX { self@.len() } else { usize::MAX as nat },
    {
        count_chain(&self.top, Ghost(Seq::empty()))
    }

    /// Every domain that has at least one rule, each once.
    pub fn get_all_blocked(&self) -> (r: Vec<String>)
        ensures
            forall|s: Seq<char>| #![trigger r.deep_view().contains(s)] r.deep_view().contains(s) <==> names_key(self@, s),
            no_dups(r.deep_view()),
            r.deep_view().len() <= self@.len(),
    {
        proof {
            use_type_invariant(self);
        }
        let mut out: Vec<String> = Vec::new();
        let base: Vec<char> = Vec::new();
        assert(base@ =~= Seq::<char>::empty());
        assert(out.deep_view() =~= Seq::<Seq<char>>::empty());
        collect_chain(&self.top, &base, &mut out);
        assert(out.deep_view().skip(0) =~= out.deep_view());
        out
    }
}

// ── Laws ─────────────────────────────────────────────────────────────────────

/// An allowing rule for every origin, resource type and party.
pub open spec fn universal_allow() -> RuleView {
    RuleView { action: Action::Allow, origin: OriginView::Any, resource_mask: 0, third_party_only: false }
}

/// The reversed key of `d` is a label prefix of the reversed key of `x.d`.
proof fn lemma_subdomain_key(d: Seq<char>, x: Seq<char>)
    ensures
        label_prefix(reverse_domain(d), reverse_domain(x.push('.') + d)),
{
    lemma_reverse_subdomain(x, d);
    let rd = reverse_domain(d);
    let rh = rd.push('.') + reverse_domain(x);
    assert(rh.take(rd.len() as int) =~= rd);
    assert(rh[rd.len() as int] == '.');
}

/// A blocking rule for `d` with no conditions blocks `d` on every origin,
/// resource type and party, unless an allowing rule matches.
pub proof fn law_block_covers_domain(ms: Multiset<Entry>, d: Seq<char>, origin: Option<Seq<char>>, mask: u16, tp: bool)
    requires
        d.len() > 0,
        ms.count((reverse_domain(d), universal_block())) > 0,
        !has_match(ms, reverse_domain(d), reverse_opt(origin), mask, tp, Action::Allow),
    ensures
        query(ms, d, origin, mask, tp),
{
    let e = (reverse_domain(d), universal_block());
    assert(label_prefix(e.0, reverse_domain(d)));
    assert(ms.count(e) > 0 && label_prefix(e.0, reverse_domain(d)) && rule_applies(e.1, reverse_opt(origin), mask, tp));
}

/// A blocking rule for `d` with no conditions also blocks every subdomain
/// `x.d`, unless an allowing rule matches.
pub proof fn law_block_covers_subdomains(
    ms: Multiset<Entry>,
    d: Seq<char>,
    x: Seq<char>,
    origin: Option<Seq<char>>,
    mask: u16,
    tp: bool,
)
    requires
        ms.count((reverse_domain(d), universal_block())) > 0,
        !has_match(ms, reverse_domain(x.push('.') + d), reverse_opt(origin), mask, tp, Action::Allow),
    ensures
        query(ms, x.push('.') + d, origin, mask, tp),
{
    let e = (reverse_domain(d), universal_block());
    lemma_subdomain_key(d, x);
    assert(ms.count(e) > 0 && label_prefix(e.0, reverse_domain(x.push('.') + d)) && rule_applies(e.1, reverse_opt(origin), mask, tp));
}

/// An allowing rule for `d` with no conditions exempts `d` and each of its
/// subdomains from blocking, whatever else the tree holds.
pub proof fn law_allow_exempts_subdomains(
    ms: Multiset<Entry>,
    d: Seq<char>,
    x: Seq<char>,
    origin: Option<Seq<char>>,
    mask: u16,
    tp: bool,
)
    requires
        ms.count((reverse_domain(d), universal_allow())) > 0,
    ensures
        !query(ms, d, origin, mask, tp),
        !query(ms, x.push('.') + d, origin, mask, tp),
{
    let e = (reverse_domain(d), universal_allow());
    lemma_subdomain_key(d, x);
    assert(label_prefix(e.0, reverse_domain(d)));
    assert(ms.count(e) > 0 && label_prefix(e.0, reverse_domain(d)) && rule_applies(e.1, reverse_opt(origin), mask, tp));
    assert(ms.count(e) > 0 && label_prefix(e.0, reverse_domain(x.push('.') + d)) && rule_applies(e.1, reverse_opt(origin), mask, tp));
}

/// Rules that act only on listed origins (blocks and exceptions, not
/// whitelists) never fire for a request without an origin: a tree of such
/// rules blocks nothing there.
pub proof fn law_origin_rules_need_origin(ms: Multiset<Entry>, h: Seq<char>, mask: u16, tp: bool)
    requires
        forall|e: Entry| #[trigger] ms.count(e) > 0 ==> e.1.origin is OnlyOn && e.1.action != Action::Whitelist,
    ensures
        !query(ms, h, None, mask, tp),
{
}

/// A rule made for one origin (`insert_with_whitelist`,
/// `insert_with_blacklist`) applies on that origin and on its subdomains.
pub proof fn law_origin_rule_covers_origin(action: Action, o: Seq<char>, y: Seq<char>, mask: u16, tp: bool)
    ensures
        rule_applies(origin_rule(action, o), Some(reverse_domain(o)), mask, tp),
        rule_applies(origin_rule(action, o), Some(reverse_domain(y.push('.') + o)), mask, tp),
{
    let l = seq![reverse_domain(o)];
    lemma_subdomain_key(o, y);
    assert(label_prefix(l[0], reverse_domain(o)));
    assert(label_prefix(l[0], reverse_domain(y.push('.') + o)));
}

/// Rules for third-party requests only never fire on first-party requests.
pub proof fn law_third_party_rules_skip_first_party(
    ms: Multiset<Entry>,
    h: Seq<char>,
    origin: Option<Seq<char>>,
    mask: u16,
)
    requires
        forall|e: Entry| #[trigger] ms.count(e) > 0 ==> e.1.third_party_only,
    ensures
        !query(ms, h, origin, mask, false),
{
}

/// Each successful insertion stores exactly one more rule.
pub proof fn law_insert_adds_one_rule(ms: Multiset<Entry>, e: Entry)
    ensures
        ms.insert(e).len() == ms.len() + 1,
{
}

/// A resource-type exception never lifts a block on a request whose type is
/// unknown (mask 0): an allowing rule restricted to some types does not fire
/// there.
pub proof fn law_typed_exception_needs_known_type(r: RuleView, origin: Option<Seq<char>>, tp: bool)
    requires
        r.action == Action::Allow,
        r.resource_mask != 0,
    ensures
        !rule_applies(r, origin, 0, tp),
{
    assert(r.resource_mask & 0u16 == 0u16) by (bit_vector);
}

/// A reversed key that is a label prefix of a reversed domain names that
/// domain or one of its parents.
proof fn lemma_label_prefix_parent(d: Seq<char>, h: Seq<char>)
    requires
        label_prefix(reverse_domain(d), reverse_domain(h)),
    ensures
        h == d || exists|x: Seq<char>| h == x.push('.') + d,
{
    let rh = reverse_domain(h);
    let rd = reverse_domain(d);
    lemma_reverse_domain_involutive(h);
    lemma_reverse_domain_involutive(d);
    if rd != rh {
        let t = rh.skip(rd.len() as int + 1);
        assert(rh =~= rd.push('.') + t);
        lemma_reverse_subdomain(rd, t);
        assert(h == reverse_domain(t).push('.') + d);
    }
}

/// A tree whose rules are all attached to `d` blocks nothing but `d` and its
/// subdomains: whatever it blocks is `d` itself or `x.d` for some `x`.
pub proof fn law_rules_stay_within_domain(
    ms: Multiset<Entry>,
    d: Seq<char>,
    h: Seq<char>,
    origin: Option<Seq<char>>,
    mask: u16,
    tp: bool,
)
    requires
        forall|e: Entry| #[trigger] ms.count(e) > 0 ==> e.0 == reverse_domain(d),
        query(ms, h, origin, mask, tp),
    ensures
        h == d || exists|x: Seq<char>| h == x.push('.') + d,
{
    let e = choose|e: Entry|
        #![trigger ms.count(e)]
        ms.count(e) > 0 && label_prefix(e.0, reverse_domain(h)) && fires_as(e.1, reverse_opt(origin), mask, tp, Action::Block);
    lemma_label_prefix_parent(d, h);
}

/// Allowing always wins: when some rule allows a request (an exception, or a
/// whitelist on one of its origins), the request is not blocked, whatever
/// blocking rules also fire.
pub proof fn law_whitelist_always_wins(
    ms: Multiset<Entry>,
    h: Seq<char>,
    origin: Option<Seq<char>>,
    mask: u16,
    tp: bool,
)
    requires
        has_match(ms, reverse_domain(h), reverse_opt(origin), mask, tp, Action::Allow),
    ensures
        !query(ms, h, origin, mask, tp),
{
}

/// `h` is `d` or a subdomain of it.
pub open spec fn covered_by(h: Seq<char>, d: Seq<char>) -> bool {
    h == d || exists|x: Seq<char>| h == #[trigger] x.push('.') + d
}

proof fn lemma_covered_key(d: Seq<char>, h: Seq<char>)
    ensures
        label_prefix(reverse_domain(d), reverse_domain(h)) <==> covered_by(h, d),
{
    if label_prefix(reverse_domain(d), reverse_domain(h)) {
        lemma_label_prefix_parent(d, h);
    }
    if covered_by(h, d) && h != d {
        let x = choose|x: Seq<char>| h == #[trigger] x.push('.') + d;
        lemma_subdomain_key(d, x);
    }
}

/// A whitelist on a fresh tree (`insert_with_whitelist`): the domain and
/// its subdomains are blocked when requested without an origin or from any
/// origin that is not `o` or below it, and allowed from `o` and its
/// subdomains; nothing else is blocked.
pub proof fn law_whitelist_blocks_elsewhere(d: Seq<char>, o: Seq<char>, h: Seq<char>, p: Seq<char>, mask: u16, tp: bool)
    requires
        d.len() > 0,
    ensures
        query(Multiset::empty().insert((reverse_domain(d), origin_rule(Action::Whitelist, o))), h, None, mask, tp)
            <==> covered_by(h, d),
        query(Multiset::empty().insert((reverse_domain(d), origin_rule(Action::Whitelist, o))), h, Some(p), mask, tp)
            <==> (covered_by(h, d) && !covered_by(p, o)),
{
    let e = (reverse_domain(d), origin_rule(Action::Whitelist, o));
    let ms = Multiset::<Entry>::empty().insert(e);
    assert forall|f: Entry| #[trigger] ms.count(f) > 0 implies f == e by {}
    lemma_covered_key(d, h);
    lemma_covered_key(o, p);
    let l = seq![reverse_domain(o)];
    assert(!origin_gate(e.1.origin, None));
    assert(origin_gate(e.1.origin, reverse_opt(Some(p))) <==> covered_by(p, o)) by {
        if covered_by(p, o) {
            assert(label_prefix(l[0], reverse_domain(p)));
        }
        if origin_gate(e.1.origin, reverse_opt(Some(p))) {
            let i = choose|i: int| 0 <= i < l.len() && label_prefix(#[trigger] l[i], reverse_domain(p));
            assert(i == 0);
        }
    }
    if covered_by(h, d) {
        lemma_reverse_domain_len(h);
        if h.len() == 0 {
            lemma_reverse_domain_len(d);
            assert(reverse_domain(h).len() == 0);
        }
        assert(ms.count(e) > 0 && label_prefix(e.0, reverse_domain(h)) && rule_applies(e.1, None, mask, tp));
        assert(ms.count(e) > 0 && label_prefix(e.0, reverse_domain(h)) && rule_applies(e.1, reverse_opt(Some(p)), mask, tp));
    }
}

/// A conditional block (`insert_with_blacklist`) on a fresh tree blocks
/// exactly the domain and its subdomains, and only when requested from the
/// origin or one of its subdomains; never without an origin.
pub proof fn law_blacklist_only_on_origin(d: Seq<char>, o: Seq<char>, h: Seq<char>, p: Seq<char>, mask: u16, tp: bool)
    requires
        d.len() > 0,
    ensures
        !query(Multiset::empty().insert((reverse_domain(d), origin_rule(Action::Block, o))), h, None, mask, tp),
        query(Multiset::empty().insert((reverse_domain(d), origin_rule(Action::Block, o))), h, Some(p), mask, tp)
            <==> (covered_by(h, d) && covered_by(p, o)),
{
    let e = (reverse_domain(d), origin_rule(Action::Block, o));
    let ms = Multiset::<Entry>::empty().insert(e);
    assert forall|f: Entry| #[trigger] ms.count(f) > 0 implies f == e by {}
    lemma_covered_key(d, h);
    lemma_covered_key(o, p);
    let l = seq![reverse_domain(o)];
    if covered_by(h, d) && covered_by(p, o) {
        lemma_reverse_domain_len(h);
        assert(label_prefix(l[0], reverse_domain(p)));
        assert(ms.count(e) > 0 && label_prefix(e.0, reverse_domain(h)) && rule_applies(e.1, reverse_opt(Some(p)), mask, tp));
        if h.len() == 0 {
            lemma_reverse_domain_len(d);
            assert(reverse_domain(h).len() == 0);
        }
    }
    if query(ms, h, Some(p), mask, tp) {
        assert(rule_applies(e.1, reverse_opt(Some(p)), mask, tp));
        let i = choose|i: int| 0 <= i < l.len() && label_prefix(#[trigger] l[i], reverse_domain(p));
        assert(i == 0);
    }
}

/// A tree of unconditional blocking rules (what `insert` and `bulk_load`
/// store) blocks exactly the domains that are one of the inserted domains or
/// a subdomain of one.
pub proof fn law_universal_blocks_exactly(ms: Multiset<Entry>, h: Seq<char>, origin: Option<Seq<char>>, mask: u16, tp: bool)
    requires
        forall|e: Entry| #[trigger] ms.count(e) > 0 ==> e.1 == universal_block(),
    ensures
        query(ms, h, origin, mask, tp) <==> (h.len() > 0 && exists|d: Seq<char>|
            ms.count((reverse_domain(d), universal_block())) > 0 && #[trigger] covered_by(h, d)),
{
    if query(ms, h, origin, mask, tp) {
        let e = choose|e: Entry|
            #![trigger ms.count(e)]
            ms.count(e) > 0 && label_prefix(e.0, reverse_domain(h)) && fires_as(e.1, reverse_opt(origin), mask, tp, Action::Block);
        let d = reverse_domain(e.0);
        lemma_reverse_domain_involutive(e.0);
        assert(e == (reverse_domain(d), universal_block()));
        lemma_covered_key(d, h);
        assert(ms.count((reverse_domain(d), universal_block())) > 0 && covered_by(h, d));
    }
    if h.len() > 0 && exists|d: Seq<char>| ms.count((reverse_domain(d), universal_block())) > 0 && #[trigger] covered_by(h, d) {
        let d = choose|d: Seq<char>| ms.count((reverse_domain(d), universal_block())) > 0 && #[trigger] covered_by(h, d);
        lemma_covered_key(d, h);
        let e = (reverse_domain(d), universal_block());
        assert(ms.count(e) > 0 && label_prefix(e.0, reverse_domain(h)) && rule_applies(e.1, reverse_opt(origin), mask, tp));
    }
}

/// The listing after an insertion: `get_all_blocked` then names exactly
/// the names it named before and the inserted domain.
pub proof fn law_listing_after_insert(ms: Multiset<Entry>, d: Seq<char>, r: RuleView, s: Seq<char>)
    ensures
        names_key(ms.insert((reverse_domain(d), r)), s) <==> (names_key(ms, s) || s == d),
{
    lemma_reverse_domain_involutive(d);
    let e = (reverse_domain(d), r);
    if names_key(ms.insert(e), s) {
        let f = choose|f: Entry| #![trigger ms.insert(e).count(f)] ms.insert(e).count(f) > 0 && s == reverse_domain(f.0);
        if f != e {
            assert(ms.count(f) > 0);
        }
    }
    if names_key(ms, s) {
        let f = choose|f: Entry| #![trigger ms.count(f)] ms.count(f) > 0 && s == reverse_domain(f.0);
        assert(ms.insert(e).count(f) > 0);
    }
    if s == d {
        assert(ms.insert(e).count(e) > 0);
    }
}

/// A rule for `d` (stored under its reversed name) with the given action
/// fires for a request for `h`, named as written.
pub open spec fn plain_match(
    ms: Multiset<Entry>,
    h: Seq<char>,
    origin: Option<Seq<char>>,
    mask: u16,
    tp: bool,
    action: Action,
) -> bool {
    exists|e: Entry|
        #![trigger ms.count(e)]
        ms.count(e) > 0 && covered_by(h, reverse_domain(e.0)) && fires_as(e.1, reverse_opt(origin), mask, tp, action)
}

proof fn lemma_plain_match(ms: Multiset<Entry>, h: Seq<char>, origin: Option<Seq<char>>, mask: u16, tp: bool, action: Action)
    ensures
        plain_match(ms, h, origin, mask, tp, action) == has_match(ms, reverse_domain(h), reverse_opt(origin), mask, tp, action),
{
    assert forall|e: Entry| #[trigger] ms.count(e) > 0 implies (covered_by(h, reverse_domain(e.0)) <==> label_prefix(e.0, reverse_domain(h))) by {
        lemma_reverse_domain_involutive(e.0);
        lemma_covered_key(reverse_domain(e.0), h);
    }
}

/// The blocking rule, on domains as written: a request for `h` is blocked
/// exactly when some rule for `h` or for one of its parent domains blocks
/// it and no such rule allows it.
pub proof fn law_blocking_rule(ms: Multiset<Entry>, h: Seq<char>, origin: Option<Seq<char>>, mask: u16, tp: bool)
    ensures
        query(ms, h, origin, mask, tp) <==> (h.len() > 0 && plain_match(ms, h, origin, mask, tp, Action::Block)
            && !plain_match(ms, h, origin, mask, tp, Action::Allow)),
{
    lemma_plain_match(ms, h, origin, mask, tp, Action::Block);
    lemma_plain_match(ms, h, origin, mask, tp, Action::Allow);
}

/// The origin side, on domains as written: a rule's list of origins (given
/// as written and stored reversed) holds the origin `o` exactly when `o` is
/// one of them or a subdomain of one.
pub proof fn law_origin_list(l: Seq<Seq<char>>, o: Seq<char>)
    ensures
        origin_in_list(reverse_domain(o), l.map_values(|d: Seq<char>| reverse_domain(d))) <==> exists|i: int|
            0 <= i < l.len() && covered_by(o, #[trigger] l[i]),
{
    let rl = l.map_values(|d: Seq<char>| reverse_domain(d));
    if origin_in_list(reverse_domain(o), rl) {
        let i = choose|i: int| 0 <= i < rl.len() && label_prefix(#[trigger] rl[i], reverse_domain(o));
        lemma_covered_key(l[i], o);
    }
    if exists|i: int| 0 <= i < l.len() && covered_by(o, #[trigger] l[i]) {
        let i = choose|i: int| 0 <= i < l.len() && covered_by(o, #[trigger] l[i]);
        lemma_covered_key(l[i], o);
        assert(label_prefix(rl[i], reverse_domain(o)));
    }
}

/// A whitelist always wins on its origin: whatever else the tree holds, a
/// domain whitelisted on `o` is not blocked for itself or any subdomain
/// when requested from `o` or one of its subdomains.
pub proof fn law_whitelist_wins_on_origin(
    ms: Multiset<Entry>,
    d: Seq<char>,
    o: Seq<char>,
    h: Seq<char>,
    p: Seq<char>,
    mask: u16,
    tp: bool,
)
    requires
        ms.count((reverse_domain(d), origin_rule(Action::Whitelist, o))) > 0,
        covered_by(h, d),
        covered_by(p, o),
    ensures
        !query(ms, h, Some(p), mask, tp),
{
    let e = (reverse_domain(d), origin_rule(Action::Whitelist, o));
    lemma_covered_key(d, h);
    lemma_covered_key(o, p);
    let l = seq![reverse_domain(o)];
    assert(label_prefix(l[0], reverse_domain(p)));
    assert(origin_gate(e.1.origin, reverse_opt(Some(p))));
    assert(ms.count(e) > 0 && label_prefix(e.0, reverse_domain(h)) && fires_as(e.1, reverse_opt(Some(p)), mask, tp, Action::Allow));
}

} // verus!
