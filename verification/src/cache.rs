//! The tree cache format, `DOMTREE3`.
//!
//! ```text
//! file   := "DOMTREE3" node
//! node   := str(prefix) u32(rule count) rule* u32(child count) (u32(key char) node)*
//! rule   := u8(action: 0 block, 1 allow, 2 whitelist) u16(resource mask) u8(third party)
//!           u8(origin: 0 any, 1 only on, 2 except on) [strs]
//! strs   := u32(count) str*
//! str    := u32(byte length) UTF-8 bytes
//! ```
//! Integers are little-endian. The root node has an empty prefix and no
//! rules; a child's key is the first character of its prefix.
use vstd::prelude::*;
use vstd::multiset::Multiset;
use vstd::utf8::{decode_utf8, encode_utf8, encode_utf8_decode_utf8, encode_utf8_valid_utf8, valid_utf8};
use crate::rule::{Action, OriginConstraint, OriginView, Rule, RuleView};
use crate::text::{chars_of, string_of};
use crate::domain::append_chars;
use crate::tree::{chain_ms, chain_wf, has_first, keyed_ms, lemma_tree_view, DomainTree, Entry, RadixNode};

verus! {

// ── Integers ─────────────────────────────────────────────────────────────────

pub open spec fn le16(x: u16) -> Seq<u8> {
    seq![x as u8, (x >> 8u16) as u8]
}

pub open spec fn le32(x: u32) -> Seq<u8> {
    seq![x as u8, (x >> 8u32) as u8, (x >> 16u32) as u8, (x >> 24u32) as u8]
}

/// The little-endian `u16` at the start of `s`.
pub open spec fn u16_at(s: Seq<u8>) -> u16 {
    (s[0] as u16) | ((s[1] as u16) << 8u16)
}

/// The little-endian `u32` at the start of `s`.
pub open spec fn u32_at(s: Seq<u8>) -> u32 {
    (s[0] as u32) | ((s[1] as u32) << 8u32) | ((s[2] as u32) << 16u32) | ((s[3] as u32) << 24u32)
}

proof fn lemma_le16(x: u16)
    ensures
        u16_at(le16(x)) == x,
{
    let b0 = x as u8;
    let b1 = (x >> 8u16) as u8;
    assert((b0 as u16) | ((b1 as u16) << 8u16) == x) by (bit_vector)
        requires
            b0 == x as u8,
            b1 == (x >> 8u16) as u8,
    ;
}

proof fn lemma_le32(x: u32)
    ensures
        u32_at(le32(x)) == x,
{
    let b0 = x as u8;
    let b1 = (x >> 8u32) as u8;
    let b2 = (x >> 16u32) as u8;
    let b3 = (x >> 24u32) as u8;
    assert((b0 as u32) | ((b1 as u32) << 8u32) | ((b2 as u32) << 16u32) | ((b3 as u32) << 24u32) == x) by (bit_vector)
        requires
            b0 == x as u8,
            b1 == (x >> 8u32) as u8,
            b2 == (x >> 16u32) as u8,
            b3 == (x >> 24u32) as u8,
    ;
}

// ── Encoding ─────────────────────────────────────────────────────────────────

/// A string: its UTF-8 length, then its UTF-8 bytes.
#[verifier::opaque]
pub open spec fn enc_str(s: Seq<char>) -> Seq<u8> {
    le32(encode_utf8(s).len() as u32) + encode_utf8(s)
}

/// The strings one after another.
pub open spec fn enc_str_items(l: Seq<Seq<char>>) -> Seq<u8>
    decreases l.len(),
{
    if l.len() == 0 {
        Seq::empty()
    } else {
        enc_str(l[0]) + enc_str_items(l.drop_first())
    }
}

/// A list of strings: the count, then the strings.
pub open spec fn enc_strs(l: Seq<Seq<char>>) -> Seq<u8> {
    le32(l.len() as u32) + enc_str_items(l)
}

pub open spec fn enc_origin(o: OriginView) -> Seq<u8> {
    match o {
        OriginView::Any => seq![0u8],
        OriginView::OnlyOn(l) => seq![1u8] + enc_strs(l),
        OriginView::ExceptOn(l) => seq![2u8] + enc_strs(l),
    }
}

/// The byte that stands for an action.
pub open spec fn action_byte(a: Action) -> u8 {
    match a {
        Action::Block => 0u8,
        Action::Allow => 1u8,
        Action::Whitelist => 2u8,
    }
}

/// The action a byte stands for (bytes above 2 stand for none).
pub open spec fn byte_action(b: u8) -> Action {
    if b == 0 {
        Action::Block
    } else if b == 1 {
        Action::Allow
    } else {
        Action::Whitelist
    }
}

pub open spec fn enc_rule(r: RuleView) -> Seq<u8> {
    seq![action_byte(r.action)] + le16(r.resource_mask) + seq![
        if r.third_party_only { 1u8 } else { 0u8 },
    ] + enc_origin(r.origin)
}

/// The rules one after another.
#[verifier::opaque]
pub open spec fn enc_rules(rs: Seq<RuleView>) -> Seq<u8>
    decreases rs.len(),
{
    if rs.len() == 0 {
        Seq::empty()
    } else {
        enc_rule(rs[0]) + enc_rules(rs.drop_first())
    }
}

/// Every string of `l` fits the format's 32-bit length fields.
pub open spec fn strs_fit(l: Seq<Seq<char>>) -> bool {
    l.len() <= u32::MAX && forall|i: int| 0 <= i < l.len() ==> encode_utf8(#[trigger] l[i]).len() <= u32::MAX
}

pub open spec fn rule_fits(r: RuleView) -> bool {
    match r.origin {
        OriginView::Any => true,
        OriginView::OnlyOn(l) => strs_fit(l),
        OriginView::ExceptOn(l) => strs_fit(l),
    }
}

// ── Decoding ─────────────────────────────────────────────────────────────────

pub open spec fn take_u32(s: Seq<u8>) -> Option<(u32, Seq<u8>)> {
    if s.len() >= 4 {
        Some((u32_at(s), s.skip(4)))
    } else {
        None
    }
}

#[verifier::opaque]
pub open spec fn take_str(s: Seq<u8>) -> Option<(Seq<char>, Seq<u8>)> {
    match take_u32(s) {
        None => None,
        Some((n, r)) => if n <= r.len() && valid_utf8(r.take(n as int)) {
            Some((decode_utf8(r.take(n as int)), r.skip(n as int)))
        } else {
            None
        },
    }
}

pub open spec fn take_str_items(s: Seq<u8>, count: nat) -> Option<(Seq<Seq<char>>, Seq<u8>)>
    decreases count,
{
    if count == 0 {
        Some((Seq::empty(), s))
    } else {
        match take_str(s) {
            None => None,
            Some((x, r)) => match take_str_items(r, (count - 1) as nat) {
                None => None,
                Some((xs, r2)) => Some((seq![x] + xs, r2)),
            },
        }
    }
}

pub open spec fn take_strs(s: Seq<u8>) -> Option<(Seq<Seq<char>>, Seq<u8>)> {
    match take_u32(s) {
        None => None,
        Some((n, r)) => take_str_items(r, n as nat),
    }
}

pub open spec fn take_origin(s: Seq<u8>) -> Option<(OriginView, Seq<u8>)> {
    if s.len() == 0 {
        None
    } else if s[0] == 0 {
        Some((OriginView::Any, s.skip(1)))
    } else if s[0] == 1 || s[0] == 2 {
        match take_strs(s.skip(1)) {
            None => None,
            Some((l, r)) => Some((if s[0] == 1 { OriginView::OnlyOn(l) } else { OriginView::ExceptOn(l) }, r)),
        }
    } else {
        None
    }
}

#[verifier::opaque]
pub open spec fn take_rule(s: Seq<u8>) -> Option<(RuleView, Seq<u8>)> {
    if s.len() < 4 || s[0] > 2 {
        None
    } else {
        match take_origin(s.skip(4)) {
            None => None,
            Some((o, r)) => Some(
                (
                    RuleView {
                        action: byte_action(s[0]),
                        origin: o,
                        resource_mask: u16_at(s.skip(1)),
                        third_party_only: s[3] != 0,
                    },
                    r,
                ),
            ),
        }
    }
}

#[verifier::opaque]
pub open spec fn take_rules(s: Seq<u8>, count: nat) -> Option<(Seq<RuleView>, Seq<u8>)>
    decreases count,
{
    if count == 0 {
        Some((Seq::empty(), s))
    } else {
        match take_rule(s) {
            None => None,
            Some((x, r)) => match take_rules(r, (count - 1) as nat) {
                None => None,
                Some((xs, r2)) => Some((seq![x] + xs, r2)),
            },
        }
    }
}

// ── Round trips of the parts ─────────────────────────────────────────────────

proof fn lemma_take_str(x: Seq<char>, rest: Seq<u8>)
    requires
        encode_utf8(x).len() <= u32::MAX,
    ensures
        take_str(enc_str(x) + rest) == Some((x, rest)),
{
    reveal(take_str);
    reveal(enc_str);
    let e = encode_utf8(x);
    let n = e.len() as u32;
    let s = enc_str(x) + rest;
    lemma_le32(n);
    assert(s.take(4) =~= le32(n));
    assert(u32_at(s) == u32_at(le32(n)));
    let r = s.skip(4);
    assert(r =~= e + rest);
    assert(r.take(n as int) =~= e);
    assert(r.skip(n as int) =~= rest);
    encode_utf8_valid_utf8(x);
    encode_utf8_decode_utf8(x);
}

proof fn lemma_take_str_items(l: Seq<Seq<char>>, rest: Seq<u8>)
    requires
        forall|i: int| 0 <= i < l.len() ==> encode_utf8(#[trigger] l[i]).len() <= u32::MAX,
    ensures
        take_str_items(enc_str_items(l) + rest, l.len()) == Some((l, rest)),
    decreases l.len(),
{
    if l.len() > 0 {
        let tail = l.drop_first();
        assert forall|i: int| 0 <= i < tail.len() implies encode_utf8(#[trigger] tail[i]).len() <= u32::MAX by {
            assert(tail[i] == l[i + 1]);
        }
        lemma_take_str_items(tail, rest);
        assert(encode_utf8(l[0]).len() <= u32::MAX);
        lemma_take_str(l[0], enc_str_items(tail) + rest);
        assert(enc_str_items(l) + rest =~= enc_str(l[0]) + (enc_str_items(tail) + rest));
        assert(seq![l[0]] + tail =~= l);
    }
}

proof fn lemma_take_strs(l: Seq<Seq<char>>, rest: Seq<u8>)
    requires
        strs_fit(l),
    ensures
        take_strs(enc_strs(l) + rest) == Some((l, rest)),
{
    let n = l.len() as u32;
    let s = enc_strs(l) + rest;
    lemma_le32(n);
    assert(s.take(4) =~= le32(n));
    assert(u32_at(s) == u32_at(le32(n)));
    assert(s.skip(4) =~= enc_str_items(l) + rest);
    lemma_take_str_items(l, rest);
}

proof fn lemma_take_origin(o: OriginView, rest: Seq<u8>)
    requires
        match o {
            OriginView::Any => true,
            OriginView::OnlyOn(l) => strs_fit(l),
            OriginView::ExceptOn(l) => strs_fit(l),
        },
    ensures
        take_origin(enc_origin(o) + rest) == Some((o, rest)),
{
    let s = enc_origin(o) + rest;
    match o {
        OriginView::Any => {
            assert(s.skip(1) =~= rest);
        },
        OriginView::OnlyOn(l) => {
            assert(s.skip(1) =~= enc_strs(l) + rest);
            lemma_take_strs(l, rest);
        },
        OriginView::ExceptOn(l) => {
            assert(s.skip(1) =~= enc_strs(l) + rest);
            lemma_take_strs(l, rest);
        },
    }
}

proof fn lemma_take_rule(x: RuleView, rest: Seq<u8>)
    requires
        rule_fits(x),
    ensures
        take_rule(enc_rule(x) + rest) == Some((x, rest)),
{
    reveal(take_rule);
    let s = enc_rule(x) + rest;
    lemma_le16(x.resource_mask);
    assert(s.skip(1).take(2) =~= le16(x.resource_mask));
    assert(u16_at(s.skip(1)) == u16_at(le16(x.resource_mask)));
    assert(s.skip(4) =~= enc_origin(x.origin) + rest);
    lemma_take_origin(x.origin, rest);
    assert(s[0] == action_byte(x.action));
    assert(s[3] == if x.third_party_only { 1u8 } else { 0u8 });
    let (o, r) = take_origin(s.skip(4)).unwrap();
    let y = RuleView {
        action: byte_action(s[0]),
        origin: o,
        resource_mask: u16_at(s.skip(1)),
        third_party_only: s[3] != 0,
    };
    assert(y == x);
}

proof fn lemma_take_rules(rs: Seq<RuleView>, rest: Seq<u8>)
    requires
        forall|i: int| 0 <= i < rs.len() ==> rule_fits(#[trigger] rs[i]),
    ensures
        take_rules(enc_rules(rs) + rest, rs.len()) == Some((rs, rest)),
    decreases rs.len(),
{
    reveal(take_rules);
    reveal(enc_rules);
    if rs.len() > 0 {
        let tail = rs.drop_first();
        assert forall|i: int| 0 <= i < tail.len() implies rule_fits(#[trigger] tail[i]) by {
            assert(tail[i] == rs[i + 1]);
        }
        lemma_take_rules(tail, rest);
        assert(rule_fits(rs[0]));
        lemma_take_rule(rs[0], enc_rules(tail) + rest);
        assert(enc_rules(rs) + rest =~= enc_rule(rs[0]) + (enc_rules(tail) + rest));
        assert(seq![rs[0]] + tail =~= rs);
    }
}

// ── Nodes ────────────────────────────────────────────────────────────────────

/// The number of nodes of a chain.
pub(crate) open spec fn chain_len(c: Option<Box<RadixNode>>) -> nat
    decreases c,
{
    match c {
        None => 0,
        Some(n) => 1 + chain_len(n.sibling),
    }
}

/// The child count written for a chain (it saturates at `u32::MAX`).
pub(crate) open spec fn count_field(c: Option<Box<RadixNode>>) -> u32 {
    if chain_len(c) <= u32::MAX { chain_len(c) as u32 } else { u32::MAX }
}

pub open spec fn rule_views(rules: Seq<Rule>) -> Seq<RuleView> {
    rules.map_values(|r: Rule| r@)
}

/// The nodes of a chain one after another, each with its key, its prefix,
/// its rules and its children.
#[verifier::opaque]
pub(crate) open spec fn enc_chain(c: Option<Box<RadixNode>>) -> Seq<u8>
    decreases c,
{
    match c {
        None => Seq::empty(),
        Some(n) => le32(n.prefix@[0] as u32) + enc_str(n.prefix@) + le32(n.rules@.len() as u32) + enc_rules(
            rule_views(n.rules@),
        ) + le32(count_field(n.child)) + enc_chain(n.child) + enc_chain(n.sibling),
    }
}

/// Every length and count of a chain fits the format's 32-bit fields.
pub(crate) open spec fn chain_fits(c: Option<Box<RadixNode>>) -> bool
    decreases c,
{
    match c {
        None => true,
        Some(n) => {
            &&& encode_utf8(n.prefix@).len() <= u32::MAX
            &&& n.rules@.len() <= u32::MAX
            &&& forall|i: int| 0 <= i < n.rules@.len() ==> rule_fits((#[trigger] n.rules@[i])@)
            &&& chain_len(n.child) <= u32::MAX
            &&& chain_fits(n.child)
            &&& chain_fits(n.sibling)
        },
    }
}

/// The rules `rs` attached to `key`.
pub open spec fn views_ms(key: Seq<char>, rs: Seq<RuleView>) -> Multiset<Entry> {
    rs.map_values(|r: RuleView| (key, r)).to_multiset()
}

/// What a decoded chain holds: its rules, and the first characters of its
/// nodes.
pub struct ChainParse {
    pub ms: Multiset<Entry>,
    pub firsts: Set<char>,
}

/// Decodes one node under the path `base`: its prefix, the rules below it,
/// and the remaining bytes.
pub open spec fn take_node(s: Seq<u8>, base: Seq<char>) -> Option<(Seq<char>, Multiset<Entry>, Seq<u8>)>
    decreases s.len(),
{
    match take_str(s) {
        None => None,
        Some((p, r1)) => match take_u32(r1) {
            None => None,
            Some((rc, r2)) => match take_rules(r2, rc as nat) {
                None => None,
                Some((rs, r3)) => match take_u32(r3) {
                    None => None,
                    Some((cc, r4)) => if r4.len() < s.len() {
                        match take_chain(r4, cc as nat, base + p) {
                            None => None,
                            Some((cp, r5)) => Some((p, views_ms(base + p, rs).add(cp.ms), r5)),
                        }
                    } else {
                        None
                    },
                },
            },
        },
    }
}

/// Decodes `count` nodes under the path `base`. Each key must be the first
/// character of its node's prefix, prefixes must be non-empty, and no two
/// nodes may begin with the same character.
pub open spec fn take_chain(s: Seq<u8>, count: nat, base: Seq<char>) -> Option<(ChainParse, Seq<u8>)>
    decreases s.len(),
{
    if count == 0 {
        Some((ChainParse { ms: Multiset::empty(), firsts: Set::empty() }, s))
    } else if s.len() < 4 {
        None
    } else {
        let key = u32_at(s);
        match take_node(s.skip(4), base) {
            None => None,
            Some((p, ms, r2)) => if p.len() == 0 || key != p[0] as u32 || r2.len() >= s.len() {
                None
            } else {
                match take_chain(r2, (count - 1) as nat, base) {
                    None => None,
                    Some((cp, r3)) => if cp.firsts.contains(p[0]) {
                        None
                    } else {
                        Some((ChainParse { ms: ms.add(cp.ms), firsts: cp.firsts.insert(p[0]) }, r3))
                    },
                }
            },
        }
    }
}

/// The first characters of the nodes of a chain.
pub(crate) open spec fn firsts_of(c: Option<Box<RadixNode>>) -> Set<char> {
    Set::new(|ch: char| has_first(c, ch))
}

proof fn lemma_keyed_views(key: Seq<char>, rules: Seq<Rule>)
    ensures
        keyed_ms(key, rules) == views_ms(key, rule_views(rules)),
{
    assert(rules.map_values(|r: Rule| (key, r@)) =~= rule_views(rules).map_values(|r: RuleView| (key, r)));
}

/// A node's own encoding: prefix, rules, child count and children.
pub(crate) open spec fn node_bytes(n: RadixNode) -> Seq<u8> {
    enc_str(n.prefix@) + le32(n.rules@.len() as u32) + enc_rules(rule_views(n.rules@)) + le32(count_field(n.child))
        + enc_chain(n.child)
}

proof fn lemma_take_node_steps(
    s: Seq<u8>,
    base: Seq<char>,
    p: Seq<char>,
    r1: Seq<u8>,
    rc: u32,
    rv: Seq<RuleView>,
    r3: Seq<u8>,
    cf: u32,
    cp: ChainParse,
    tail: Seq<u8>,
)
    requires
        take_str(s) == Some((p, r1)),
        take_u32(r1) == Some((rc, r1.skip(4))),
        take_rules(r1.skip(4), rc as nat) == Some((rv, r3)),
        take_u32(r3) == Some((cf, r3.skip(4))),
        r3.skip(4).len() < s.len(),
        take_chain(r3.skip(4), cf as nat, base + p) == Some((cp, tail)),
    ensures
        take_node(s, base) == Some((p, views_ms(base + p, rv).add(cp.ms), tail)),
{
}

proof fn lemma_take_node(n: RadixNode, base: Seq<char>, tail: Seq<u8>)
    requires
        chain_wf(n.child),
        chain_fits(n.child),
        encode_utf8(n.prefix@).len() <= u32::MAX,
        n.rules@.len() <= u32::MAX,
        forall|i: int| 0 <= i < n.rules@.len() ==> rule_fits((#[trigger] n.rules@[i])@),
        chain_len(n.child) <= u32::MAX,
        take_chain(enc_chain(n.child) + tail, chain_len(n.child), base + n.prefix@) == Some(
            (ChainParse { ms: chain_ms(n.child, base + n.prefix@), firsts: firsts_of(n.child) }, tail),
        ),
    ensures
        take_node(node_bytes(n) + tail, base) == Some(
            (n.prefix@, keyed_ms(base + n.prefix@, n.rules@).add(chain_ms(n.child, base + n.prefix@)), tail),
        ),
{
    let p = n.prefix@;
    let rv = rule_views(n.rules@);
    let cf = count_field(n.child);
    let after_children = enc_chain(n.child) + tail;
    assert forall|i: int| 0 <= i < rv.len() implies rule_fits(#[trigger] rv[i]) by {
        assert(rv[i] == n.rules@[i]@);
    }
    let r3 = le32(cf) + after_children;
    let rc = n.rules@.len() as u32;
    let r1 = le32(rc) + (enc_rules(rv) + r3);
    let s = node_bytes(n) + tail;
    assert(s =~= enc_str(p) + r1);
    lemma_take_str(p, r1);
    lemma_le32(rc);
    assert(r1.take(4) =~= le32(rc));
    assert(u32_at(r1) == u32_at(le32(rc)));
    assert(r1.skip(4) =~= enc_rules(rv) + r3);
    assert(rc as nat == rv.len());
    lemma_take_rules(rv, r3);
    lemma_le32(cf);
    assert(r3.take(4) =~= le32(cf));
    assert(u32_at(r3) == u32_at(le32(cf)));
    assert(r3.skip(4) =~= after_children);
    assert(cf as nat == chain_len(n.child));
    lemma_keyed_views(base + p, n.rules@);
    assert(s.len() == enc_str(p).len() + 4 + enc_rules(rv).len() + 4 + after_children.len());
    let cp = ChainParse { ms: chain_ms(n.child, base + p), firsts: firsts_of(n.child) };
    lemma_take_node_steps(s, base, p, r1, rc, rv, r3, cf, cp, tail);
}

proof fn lemma_take_chain(c: Option<Box<RadixNode>>, base: Seq<char>, rest: Seq<u8>)
    requires
        chain_wf(c),
        chain_fits(c),
    ensures
        take_chain(enc_chain(c) + rest, chain_len(c), base) == Some(
            (ChainParse { ms: chain_ms(c, base), firsts: firsts_of(c) }, rest),
        ),
    decreases c,
{
    reveal(enc_chain);
    match c {
        None => {
            assert(enc_chain(c) + rest =~= rest);
            assert(firsts_of(c) =~= Set::<char>::empty());
        },
        Some(n) => {
            let p = n.prefix@;
            let tail = enc_chain(n.sibling) + rest;
            lemma_take_chain(n.child, base + p, tail);
            lemma_take_chain(n.sibling, base, rest);
            lemma_take_node(*n, base, tail);
            lemma_le32(p[0] as u32);
            let s = enc_chain(c) + rest;
            assert(s =~= le32(p[0] as u32) + (node_bytes(*n) + tail));
            assert(s.take(4) =~= le32(p[0] as u32));
            assert(u32_at(s) == u32_at(le32(p[0] as u32)));
            assert(s.skip(4) =~= node_bytes(*n) + tail);
            assert(!firsts_of(n.sibling).contains(p[0]));
            assert(firsts_of(c) =~= firsts_of(n.sibling).insert(p[0]));
            assert(chain_len(c) - 1 == chain_len(n.sibling));
            assert(tail.len() < s.len());
        },
    }
}

// ── Decoder ──────────────────────────────────────────────────────────────────

/// `String::from_utf8`: the bytes as a string, when they are valid UTF-8.
/// Trusted: the result is `Some` exactly when the bytes are valid UTF-8 (as
/// vstd's `valid_utf8` defines it), and the string's UTF-8 bytes are then
/// the given bytes.
#[verifier::external_body]
fn utf8_string(bytes: Vec<u8>) -> (r: Option<String>)
    ensures
        r is Some <==> valid_utf8(bytes@),
        r matches Some(s) ==> encode_utf8(s@) == bytes@,
{
    String::from_utf8(bytes).ok()
}

/// The little-endian `u32` at `pos`.
fn get_u32(b: &[u8], pos: usize) -> (r: Option<u32>)
    requires
        pos <= b@.len(),
    ensures
        match take_u32(b@.skip(pos as int)) {
            None => r is None,
            Some((x, rest)) => r == Some(x) && pos + 4 <= b@.len() && rest == b@.skip(pos + 4),
        },
{
    let n = b.len();
    if n - pos < 4 {
        return None;
    }
    let ghost s = b@.skip(pos as int);
    assert(s[0] == b@[pos as int] && s[1] == b@[pos + 1] && s[2] == b@[pos + 2] && s[3] == b@[pos + 3]);
    assert(s.skip(4) =~= b@.skip(pos + 4));
    Some((b[pos] as u32) | ((b[pos + 1] as u32) << 8u32) | ((b[pos + 2] as u32) << 16u32) | ((b[pos + 3] as u32) << 24u32))
}

/// A copy of `b[a..e]`.
fn byte_range(b: &[u8], a: usize, e: usize) -> (r: Vec<u8>)
    requires
        a <= e <= b@.len(),
    ensures
        r@ == b@.subrange(a as int, e as int),
{
    let mut out: Vec<u8> = Vec::new();
    let mut i: usize = a;
    while i < e
        invariant
            a <= i <= e <= b@.len(),
            out@ == b@.subrange(a as int, i as int),
        decreases e - i,
    {
        out.push(b[i]);
        assert(b@.subrange(a as int, i + 1) =~= b@.subrange(a as int, i as int).push(b@[i as int]));
        i = i + 1;
    }
    out
}

/// The string at `pos`.
fn get_str(b: &[u8], pos: usize) -> (r: Option<(String, usize)>)
    requires
        pos <= b@.len(),
    ensures
        match take_str(b@.skip(pos as int)) {
            None => r is None,
            Some((x, rest)) => r matches Some((st, end)) && st@ == x && pos < end <= b@.len() && rest == b@.skip(
                end as int,
            ),
        },
{
    reveal(take_str);
    let len = b.len();
    let n = match get_u32(b, pos) {
        None => {
            return None;
        },
        Some(n) => n,
    };
    let p1 = pos + 4;
    let nn = n as usize;
    let ghost r = b@.skip(p1 as int);
    if nn > len - p1 {
        return None;
    }
    let bytes = byte_range(b, p1, p1 + nn);
    assert(bytes@ =~= r.take(nn as int));
    assert(r.skip(nn as int) =~= b@.skip(p1 + nn));
    match utf8_string(bytes) {
        None => None,
        Some(st) => {
            proof {
                encode_utf8_decode_utf8(st@);
            }
            Some((st, p1 + nn))
        },
    }
}

/// `count` strings at `pos`.
fn get_str_items(b: &[u8], pos: usize, count: u32) -> (r: Option<(Vec<String>, usize)>)
    requires
        pos <= b@.len(),
    ensures
        match take_str_items(b@.skip(pos as int), count as nat) {
            None => r is None,
            Some((xs, rest)) => r matches Some((v, end)) && v.deep_view() == xs && pos <= end <= b@.len() && rest
                == b@.skip(end as int),
        },
{
    let ghost s0 = b@.skip(pos as int);
    let mut acc: Vec<String> = Vec::new();
    let mut cur: usize = pos;
    let mut k: u32 = 0;
    while k < count
        invariant
            pos <= cur <= b@.len(),
            k <= count,
            s0 == b@.skip(pos as int),
            match take_str_items(b@.skip(cur as int), (count - k) as nat) {
                None => take_str_items(s0, count as nat) is None,
                Some((xs, r)) => take_str_items(s0, count as nat) == Some((acc.deep_view() + xs, r)),
            },
        decreases count - k,
    {
        let ghost m = (count - k) as nat;
        match get_str(b, cur) {
            None => {
                return None;
            },
            Some((st, end)) => {
                proof {
                    match take_str_items(b@.skip(end as int), (m - 1) as nat) {
                        Some((xs2, r2)) => {
                            assert(acc.deep_view() + (seq![st@] + xs2) =~= acc.deep_view().push(st@) + xs2);
                        },
                        None => {},
                    }
                }
                let ghost before = acc.deep_view();
                acc.push(st);
                assert(acc.deep_view() =~= before.push(st@));
                cur = end;
                k = k + 1;
            },
        }
    }
    proof {
        assert(acc.deep_view() + Seq::<Seq<char>>::empty() =~= acc.deep_view());
    }
    Some((acc, cur))
}

/// A list of strings at `pos`.
fn get_strs(b: &[u8], pos: usize) -> (r: Option<(Vec<String>, usize)>)
    requires
        pos <= b@.len(),
    ensures
        match take_strs(b@.skip(pos as int)) {
            None => r is None,
            Some((xs, rest)) => r matches Some((v, end)) && v.deep_view() == xs && pos <= end <= b@.len() && rest
                == b@.skip(end as int),
        },
{
    let len = b.len();
    match get_u32(b, pos) {
        None => None,
        Some(n) => get_str_items(b, pos + 4, n),
    }
}

/// The rule at `pos`.
fn get_rule(b: &[u8], pos: usize) -> (r: Option<(Rule, usize)>)
    requires
        pos <= b@.len(),
    ensures
        match take_rule(b@.skip(pos as int)) {
            None => r is None,
            Some((x, rest)) => r matches Some((rule, end)) && rule@ == x && pos < end <= b@.len() && rest == b@.skip(
                end as int,
            ),
        },
{
    reveal(take_rule);
    let ghost s = b@.skip(pos as int);
    let len = b.len();
    if len - pos < 4 || b[pos] > 2 {
        return None;
    }
    assert(s[0] == b@[pos as int] && s[1] == b@[pos + 1] && s[2] == b@[pos + 2] && s[3] == b@[pos + 3]);
    let action = if b[pos] == 0 {
        Action::Block
    } else if b[pos] == 1 {
        Action::Allow
    } else {
        Action::Whitelist
    };
    let mask: u16 = (b[pos + 1] as u16) | ((b[pos + 2] as u16) << 8u16);
    assert(s.skip(1)[0] == s[1] && s.skip(1)[1] == s[2]);
    let third_party_only = b[pos + 3] != 0;
    let p4 = pos + 4;
    assert(s.skip(4) =~= b@.skip(p4 as int));
    if p4 == len {
        return None;
    }
    let o = b[p4];
    let ghost t = b@.skip(p4 as int);
    assert(t[0] == o);
    assert(t.skip(1) =~= b@.skip(p4 + 1));
    if o == 0 {
        let rule = Rule { action, origin_constraint: OriginConstraint::Any, resource_mask: mask, third_party_only };
        Some((rule, p4 + 1))
    } else if o == 1 || o == 2 {
        match get_strs(b, p4 + 1) {
            None => None,
            Some((l, end)) => {
                let oc = if o == 1 { OriginConstraint::OnlyOn(l) } else { OriginConstraint::ExceptOn(l) };
                let rule = Rule { action, origin_constraint: oc, resource_mask: mask, third_party_only };
                Some((rule, end))
            },
        }
    } else {
        None
    }
}

/// `count` rules at `pos`.
fn get_rules(b: &[u8], pos: usize, count: u32) -> (r: Option<(Vec<Rule>, usize)>)
    requires
        pos <= b@.len(),
    ensures
        match take_rules(b@.skip(pos as int), count as nat) {
            None => r is None,
            Some((xs, rest)) => r matches Some((v, end)) && rule_views(v@) == xs && pos <= end <= b@.len() && rest
                == b@.skip(end as int),
        },
{
    reveal(take_rules);
    let ghost s0 = b@.skip(pos as int);
    let mut acc: Vec<Rule> = Vec::new();
    let mut cur: usize = pos;
    let mut k: u32 = 0;
    while k < count
        invariant
            pos <= cur <= b@.len(),
            k <= count,
            s0 == b@.skip(pos as int),
            match take_rules(b@.skip(cur as int), (count - k) as nat) {
                None => take_rules(s0, count as nat) is None,
                Some((xs, r)) => take_rules(s0, count as nat) == Some((rule_views(acc@) + xs, r)),
            },
        decreases count - k,
    {
        proof {
            reveal(take_rules);
        }
        let ghost m = (count - k) as nat;
        match get_rule(b, cur) {
            None => {
                return None;
            },
            Some((rule, end)) => {
                proof {
                    match take_rules(b@.skip(end as int), (m - 1) as nat) {
                        Some((xs2, r2)) => {
                            assert(rule_views(acc@) + (seq![rule@] + xs2) =~= rule_views(acc@).push(rule@) + xs2);
                        },
                        None => {},
                    }
                }
                let ghost before = rule_views(acc@);
                acc.push(rule);
                assert(rule_views(acc@) =~= before.push(rule@));
                cur = end;
                k = k + 1;
            },
        }
    }
    proof {
        assert(rule_views(acc@) + Seq::<RuleView>::empty() =~= rule_views(acc@));
    }
    Some((acc, cur))
}

/// Whether some node of the chain begins with `ch`.
fn chain_has_first(c: &Option<Box<RadixNode>>, ch: char) -> (r: bool)
    ensures
        r == has_first(*c, ch),
    decreases *c,
{
    match c {
        None => false,
        Some(n) => (n.prefix.len() > 0 && n.prefix[0] == ch) || chain_has_first(&n.sibling, ch),
    }
}

/// The node at `pos`, under the path `base`.
fn decode_node(b: &[u8], pos: usize, base: &Vec<char>) -> (r: Option<(RadixNode, usize)>)
    requires
        pos <= b@.len(),
    ensures
        match take_node(b@.skip(pos as int), base@) {
            None => r is None,
            Some((p, ms, rest)) => r matches Some((n, end)) && pos < end <= b@.len() && rest == b@.skip(end as int)
                && n.prefix@ == p && n.sibling is None && chain_wf(n.child) && keyed_ms(base@ + p, n.rules@).add(
                chain_ms(n.child, base@ + p),
            ) == ms,
        },
    decreases b@.len() - pos, 1nat,
{
    let ghost s = b@.skip(pos as int);
    let len = b.len();
    let (prefix_str, p1) = match get_str(b, pos) {
        None => {
            return None;
        },
        Some(x) => x,
    };
    let prefix = chars_of(prefix_str.as_str());
    let rc = match get_u32(b, p1) {
        None => {
            return None;
        },
        Some(x) => x,
    };
    let (rules, p3) = match get_rules(b, p1 + 4, rc) {
        None => {
            return None;
        },
        Some(x) => x,
    };
    let cc = match get_u32(b, p3) {
        None => {
            return None;
        },
        Some(x) => x,
    };
    let p4 = p3 + 4;
    assert(b@.skip(p4 as int).len() < s.len());
    let mut path: Vec<char> = Vec::new();
    append_chars(&mut path, base.as_slice());
    append_chars(&mut path, prefix.as_slice());
    assert(path@ =~= base@ + prefix@);
    let (child, p5) = match decode_chain(b, p4, cc, &path) {
        None => {
            return None;
        },
        Some(x) => x,
    };
    proof {
        lemma_keyed_views(base@ + prefix@, rules@);
    }
    Some((RadixNode { prefix, rules, child, sibling: None }, p5))
}

/// `count` nodes at `pos`, under the path `base`, as a chain.
fn decode_chain(b: &[u8], pos: usize, count: u32, base: &Vec<char>) -> (r: Option<(Option<Box<RadixNode>>, usize)>)
    requires
        pos <= b@.len(),
    ensures
        match take_chain(b@.skip(pos as int), count as nat, base@) {
            None => r is None,
            Some((cp, rest)) => r matches Some((c, end)) && pos <= end <= b@.len() && rest == b@.skip(end as int)
                && chain_wf(c) && chain_ms(c, base@) == cp.ms && firsts_of(c) == cp.firsts,
        },
    decreases b@.len() - pos, 0nat,
{
    let ghost s = b@.skip(pos as int);
    let len = b.len();
    if count == 0 {
        let c: Option<Box<RadixNode>> = None;
        assert(firsts_of(c) =~= Set::<char>::empty());
        return Some((c, pos));
    }
    if len - pos < 4 {
        return None;
    }
    let key = match get_u32(b, pos) {
        None => {
            return None;
        },
        Some(x) => x,
    };
    assert(s.skip(4) =~= b@.skip(pos + 4));
    let (mut node, end) = match decode_node(b, pos + 4, base) {
        None => {
            return None;
        },
        Some(x) => x,
    };
    if node.prefix.len() == 0 || key != node.prefix[0] as u32 {
        return None;
    }
    let first = node.prefix[0];
    assert(b@.skip(end as int).len() < s.len());
    let (rest, end2) = match decode_chain(b, end, count - 1, base) {
        None => {
            return None;
        },
        Some(x) => x,
    };
    if chain_has_first(&rest, first) {
        return None;
    }
    node.sibling = rest;
    let c = Some(Box::new(node));
    proof {
        assert(firsts_of(c) =~= firsts_of(rest).insert(first));
    }
    Some((c, end2))
}

/// The header of the format.
pub open spec fn cache_header() -> Seq<u8> {
    seq![68u8, 79u8, 77u8, 84u8, 82u8, 69u8, 69u8, 51u8]
}

/// The rules that a cache holds, if it is well formed: the header, a root
/// with an empty prefix and no rules, then the root's children (anything
/// after the root is ignored).
pub open spec fn decode_tree(b: Seq<u8>) -> Option<Multiset<Entry>> {
    if b.len() < 8 || b.take(8) != cache_header() {
        None
    } else {
        match take_str(b.skip(8)) {
            None => None,
            Some((p, r1)) => if p.len() != 0 {
                None
            } else {
                match take_u32(r1) {
                    None => None,
                    Some((rc, r2)) => if rc != 0 {
                        None
                    } else {
                        match take_u32(r2) {
                            None => None,
                            Some((cc, r3)) => match take_chain(r3, cc as nat, Seq::empty()) {
                                None => None,
                                Some((cp, _)) => Some(cp.ms),
                            },
                        }
                    },
                }
            },
        }
    }
}

/// Why a cache could not be read.
#[derive(Debug)]
pub enum CacheError {
    /// The data does not begin with the `DOMTREE3` header (a cache of an
    /// older format, or no cache at all); the tree must be rebuilt.
    IncompatibleFormat,
    /// The header is right but what follows is cut short or malformed.
    Corrupt,
}

impl DomainTree {
    /// Reads a tree from its cache bytes.
    pub fn from_bytes(bytes: &[u8]) -> (r: Result<DomainTree, CacheError>)
        ensures
            bytes@.len() >= 8 && bytes@.take(8) != cache_header() ==> r matches Err(CacheError::IncompatibleFormat),
            !(bytes@.len() >= 8 && bytes@.take(8) != cache_header()) ==> match decode_tree(bytes@) {
                None => r matches Err(CacheError::Corrupt),
                Some(ms) => r matches Ok(t) && t@ == ms,
            },
    {
        let len = bytes.len();
        if len < 8 {
            return Err(CacheError::Corrupt);
        }
        let header: [u8; 8] = [68u8, 79u8, 77u8, 84u8, 82u8, 69u8, 69u8, 51u8];
        let mut i: usize = 0;
        while i < 8
            invariant
                len == bytes@.len() >= 8,
                i <= 8,
                header@ == cache_header(),
                forall|j: int| 0 <= j < i ==> bytes@[j] == cache_header()[j],
            decreases 8 - i,
        {
            if bytes[i] != header[i] {
                assert(bytes@.take(8)[i as int] != cache_header()[i as int]);
                return Err(CacheError::IncompatibleFormat);
            }
            i = i + 1;
        }
        assert(bytes@.take(8) =~= cache_header());
        let (root_prefix, p1) = match get_str(bytes, 8) {
            None => {
                return Err(CacheError::Corrupt);
            },
            Some(x) => x,
        };
        if !root_prefix.as_str().is_empty() {
            return Err(CacheError::Corrupt);
        }
        let rc = match get_u32(bytes, p1) {
            None => {
                return Err(CacheError::Corrupt);
            },
            Some(x) => x,
        };
        if rc != 0 {
            return Err(CacheError::Corrupt);
        }
        let cc = match get_u32(bytes, p1 + 4) {
            None => {
                return Err(CacheError::Corrupt);
            },
            Some(x) => x,
        };
        let base: Vec<char> = Vec::new();
        assert(base@ =~= Seq::<char>::empty());
        match decode_chain(bytes, p1 + 8, cc, &base) {
            None => Err(CacheError::Corrupt),
            Some((top, _)) => {
                let t = DomainTree { top };
                proof {
                    lemma_tree_view(t);
                }
                Ok(t)
            },
        }
    }
}

// ── Encoder ──────────────────────────────────────────────────────────────────

fn put_u32(out: &mut Vec<u8>, x: u32)
    ensures
        final(out)@ == old(out)@ + le32(x),
{
    out.push(x as u8);
    out.push((x >> 8u32) as u8);
    out.push((x >> 16u32) as u8);
    out.push((x >> 24u32) as u8);
    assert(out@ =~= old(out)@ + le32(x));
}

fn put_u16(out: &mut Vec<u8>, x: u16)
    ensures
        final(out)@ == old(out)@ + le16(x),
{
    out.push(x as u8);
    out.push((x >> 8u16) as u8);
    assert(out@ =~= old(out)@ + le16(x));
}

fn put_bytes(out: &mut Vec<u8>, b: &[u8])
    ensures
        final(out)@ == old(out)@ + b@,
{
    let n = b.len();
    let mut i: usize = 0;
    while i < n
        invariant
            n == b@.len(),
            i <= n,
            out@ == old(out)@ + b@.take(i as int),
        decreases n - i,
    {
        out.push(b[i]);
        assert(b@.take(i + 1) =~= b@.take(i as int).push(b@[i as int]));
        i = i + 1;
    }
    assert(b@.take(n as int) =~= b@);
}

fn put_str(out: &mut Vec<u8>, s: &str)
    ensures
        final(out)@ == old(out)@ + enc_str(s@),
{
    reveal(enc_str);
    let b = s.as_bytes();
    put_u32(out, b.len() as u32);
    put_bytes(out, b);
    assert(out@ =~= old(out)@ + enc_str(s@));
}

proof fn lemma_enc_str_items_push(l: Seq<Seq<char>>, x: Seq<char>)
    ensures
        enc_str_items(l.push(x)) == enc_str_items(l) + enc_str(x),
    decreases l.len(),
{
    if l.len() == 0 {
        let lx = l.push(x);
        assert(lx[0] == x);
        assert(lx.drop_first() =~= Seq::<Seq<char>>::empty());
        assert(enc_str_items(lx.drop_first()) == Seq::<u8>::empty());
        assert(enc_str_items(lx) == enc_str(x) + enc_str_items(lx.drop_first()));
        assert(enc_str_items(l) == Seq::<u8>::empty());
        assert(enc_str_items(lx) =~= enc_str_items(l) + enc_str(x));
    } else {
        lemma_enc_str_items_push(l.drop_first(), x);
        assert(l.push(x).drop_first() =~= l.drop_first().push(x));
        assert(enc_str_items(l.push(x)) =~= enc_str_items(l) + enc_str(x));
    }
}

fn put_strs(out: &mut Vec<u8>, l: &Vec<String>)
    ensures
        final(out)@ == old(out)@ + enc_strs(l.deep_view()),
{
    let ghost lv = l.deep_view();
    let n = l.len();
    put_u32(out, n as u32);
    let ghost start = out@;
    let mut k: usize = 0;
    assert(lv.take(0) =~= Seq::<Seq<char>>::empty());
    while k < n
        invariant
            n == lv.len(),
            lv == l.deep_view(),
            k <= n,
            start == old(out)@ + le32(n as u32),
            out@ == start + enc_str_items(lv.take(k as int)),
        decreases n - k,
    {
        put_str(out, l[k].as_str());
        proof {
            lemma_enc_str_items_push(lv.take(k as int), lv[k as int]);
            assert(lv.take(k + 1) =~= lv.take(k as int).push(lv[k as int]));
        }
        assert(out@ =~= start + enc_str_items(lv.take(k + 1)));
        k = k + 1;
    }
    assert(lv.take(n as int) =~= lv);
    assert(out@ =~= old(out)@ + enc_strs(lv));
}

fn put_rule(out: &mut Vec<u8>, r: &Rule)
    ensures
        final(out)@ == old(out)@ + enc_rule(r@),
{
    let a: u8 = match r.action {
        Action::Block => 0,
        Action::Allow => 1,
        Action::Whitelist => 2,
    };
    out.push(a);
    put_u16(out, r.resource_mask);
    out.push(if r.third_party_only { 1u8 } else { 0u8 });
    let ghost mid = out@;
    match &r.origin_constraint {
        OriginConstraint::Any => {
            out.push(0u8);
        },
        OriginConstraint::OnlyOn(l) => {
            out.push(1u8);
            put_strs(out, l);
        },
        OriginConstraint::ExceptOn(l) => {
            out.push(2u8);
            put_strs(out, l);
        },
    }
    assert(out@ =~= old(out)@ + enc_rule(r@));
}

proof fn lemma_enc_rules_push(rs: Seq<RuleView>, x: RuleView)
    ensures
        enc_rules(rs.push(x)) == enc_rules(rs) + enc_rule(x),
    decreases rs.len(),
{
    reveal(enc_rules);
    if rs.len() == 0 {
        let rx = rs.push(x);
        assert(rx[0] == x);
        assert(rx.drop_first() =~= Seq::<RuleView>::empty());
        assert(enc_rules(rx.drop_first()) == Seq::<u8>::empty());
        assert(enc_rules(rx) == enc_rule(x) + enc_rules(rx.drop_first()));
        assert(enc_rules(rs) == Seq::<u8>::empty());
        assert(enc_rules(rx) =~= enc_rules(rs) + enc_rule(x));
    } else {
        lemma_enc_rules_push(rs.drop_first(), x);
        assert(rs.push(x).drop_first() =~= rs.drop_first().push(x));
        assert(enc_rules(rs.push(x)) =~= enc_rules(rs) + enc_rule(x));
    }
}

fn put_rules(out: &mut Vec<u8>, rules: &Vec<Rule>)
    ensures
        final(out)@ == old(out)@ + enc_rules(rule_views(rules@)),
{
    let ghost rv = rule_views(rules@);
    let n = rules.len();
    let mut k: usize = 0;
    proof {
        reveal(enc_rules);
    }
    assert(rv.take(0) =~= Seq::<RuleView>::empty());
    while k < n
        invariant
            n == rv.len(),
            rv == rule_views(rules@),
            k <= n,
            out@ == old(out)@ + enc_rules(rv.take(k as int)),
        decreases n - k,
    {
        put_rule(out, &rules[k]);
        proof {
            lemma_enc_rules_push(rv.take(k as int), rv[k as int]);
            assert(rv.take(k + 1) =~= rv.take(k as int).push(rv[k as int]));
        }
        assert(out@ =~= old(out)@ + enc_rules(rv.take(k + 1)));
        k = k + 1;
    }
    assert(rv.take(n as int) =~= rv);
}

/// The child count field of a chain.
fn chain_count(c: &Option<Box<RadixNode>>) -> (r: u32)
    ensures
        r == count_field(*c),
    decreases *c,
{
    match c {
        None => 0,
        Some(n) => {
            let k = chain_count(&n.sibling);
            if k < u32::MAX {
                k + 1
            } else {
                u32::MAX
            }
        },
    }
}

fn put_chain(out: &mut Vec<u8>, c: &Option<Box<RadixNode>>)
    requires
        chain_wf(*c),
    ensures
        final(out)@ == old(out)@ + enc_chain(*c),
    decreases *c,
{
    proof {
        reveal(enc_chain);
    }
    match c {
        None => {
            assert(out@ =~= old(out)@ + enc_chain(*c));
        },
        Some(n) => {
            put_u32(out, n.prefix[0] as u32);
            let ps = string_of(n.prefix.as_slice());
            put_str(out, ps.as_str());
            put_u32(out, n.rules.len() as u32);
            put_rules(out, &n.rules);
            put_u32(out, chain_count(&n.child));
            put_chain(out, &n.child);
            put_chain(out, &n.sibling);
            assert(out@ =~= old(out)@ + enc_chain(*c));
        },
    }
}

/// The cache bytes of a tree.
pub closed spec fn cache_bytes(t: DomainTree) -> Seq<u8> {
    cache_header() + enc_str(Seq::empty()) + le32(0) + le32(count_field(t.top)) + enc_chain(t.top)
}

/// Every string, rule count and child count of the tree fits the format's
/// 32-bit fields (each has fewer than 2^32 bytes or items).
pub closed spec fn fits_cache(t: DomainTree) -> bool {
    chain_wf(t.top) && chain_fits(t.top) && chain_len(t.top) <= u32::MAX
}

/// What is written is read back: decoding the cache of a tree whose sizes
/// fit the format gives exactly the tree's rules.
pub proof fn law_cache_roundtrip(t: DomainTree)
    requires
        fits_cache(t),
    ensures
        decode_tree(cache_bytes(t)) == Some(t@),
{
    lemma_tree_view(t);
    let cf = count_field(t.top);
    let body = enc_chain(t.top);
    let r2 = le32(cf) + body;
    let r1 = le32(0) + r2;
    let b = cache_bytes(t);
    assert(b =~= cache_header() + (enc_str(Seq::empty()) + r1));
    assert(b.take(8) =~= cache_header());
    assert(b.skip(8) =~= enc_str(Seq::empty()) + r1);
    assert(encode_utf8(Seq::<char>::empty()) =~= Seq::<u8>::empty());
    lemma_take_str(Seq::empty(), r1);
    lemma_le32(0);
    assert(r1.take(4) =~= le32(0));
    assert(u32_at(r1) == u32_at(le32(0)));
    assert(r1.skip(4) =~= r2);
    lemma_le32(cf);
    assert(r2.take(4) =~= le32(cf));
    assert(u32_at(r2) == u32_at(le32(cf)));
    assert(r2.skip(4) =~= body);
    assert(body + Seq::<u8>::empty() =~= body);
    lemma_take_chain(t.top, Seq::empty(), Seq::empty());
}

impl DomainTree {
    /// The tree in the cache format.
    pub fn to_bytes(&self) -> (r: Vec<u8>)
        ensures
            r@ == cache_bytes(*self),
            fits_cache(*self) ==> decode_tree(r@) == Some(self@),
    {
        proof {
            use_type_invariant(self);
        }
        let mut out: Vec<u8> = Vec::new();
        let header: [u8; 8] = [68u8, 79u8, 77u8, 84u8, 82u8, 69u8, 69u8, 51u8];
        assert(header@ =~= cache_header());
        put_bytes(&mut out, &header);
        assert(out@ =~= cache_header());
        proof {
            reveal_strlit("");
        }
        assert(""@ =~= Seq::<char>::empty());
        put_str(&mut out, "");
        assert(out@ =~= cache_header() + enc_str(Seq::empty()));
        put_u32(&mut out, 0);
        let cc = chain_count(&self.top);
        put_u32(&mut out, cc);
        put_chain(&mut out, &self.top);
        assert(out@ =~= cache_header() + enc_str(Seq::empty()) + le32(0) + le32(count_field(self.top)) + enc_chain(self.top));
        assert(out@ =~= cache_bytes(*self));
        proof {
            if fits_cache(*self) {
                law_cache_roundtrip(*self);
            }
        }
        out
    }
}

} // verus!
