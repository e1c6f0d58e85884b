use vstd::prelude::*;
use crate::text::chars_of;
use crate::domain::{label_prefix, label_prefix_exec};

verus! {

/// What a rule does when it matches.
#[derive(Debug, Clone, Copy, PartialEq, Eq, Structural)]
pub enum Action {
    Block,
    /// Exception: allows where the origin constraint holds.
    Allow,
    /// Whitelist: allows where the origin constraint holds and blocks on
    /// every other origin (and when there is no origin).
    Whitelist,
}

/// Origin constraint for a rule. A block or an exception acts only where
/// its constraint holds; a whitelist allows where it holds and blocks
/// elsewhere.
#[derive(Debug, Clone)]
pub enum OriginConstraint {
    /// Applies to all origins (no `$domain=` present).
    Any,
    /// Holds only when the origin is one of these (or below one).
    OnlyOn(Vec<String>),
    /// Holds when the origin is none of these (negated `domain=`).
    ExceptOn(Vec<String>),
}

/// An origin constraint as lists of domain strings.
pub enum OriginView {
    Any,
    OnlyOn(Seq<Seq<char>>),
    ExceptOn(Seq<Seq<char>>),
}

impl View for OriginConstraint {
    type V = OriginView;

    open spec fn view(&self) -> OriginView {
        match self {
            OriginConstraint::Any => OriginView::Any,
            OriginConstraint::OnlyOn(l) => OriginView::OnlyOn(l.deep_view()),
            OriginConstraint::ExceptOn(l) => OriginView::ExceptOn(l.deep_view()),
        }
    }
}

/// A single filter rule attached to a trie node.
#[derive(Debug, Clone)]
pub struct Rule {
    pub action: Action,
    pub origin_constraint: OriginConstraint,
    /// Bitmask of resource types this rule applies to. 0 = any.
    pub resource_mask: u16,
    /// If true, this rule only fires for third-party requests.
    pub third_party_only: bool,
}

/// A rule as plain values.
pub struct RuleView {
    pub action: Action,
    pub origin: OriginView,
    pub resource_mask: u16,
    pub third_party_only: bool,
}

impl View for Rule {
    type V = RuleView;

    open spec fn view(&self) -> RuleView {
        RuleView {
            action: self.action,
            origin: self.origin_constraint@,
            resource_mask: self.resource_mask,
            third_party_only: self.third_party_only,
        }
    }
}

/// `origin` (reversed) is one of `patterns` (reversed) or a subdomain of one.
pub open spec fn origin_in_list(origin: Seq<char>, patterns: Seq<Seq<char>>) -> bool {
    exists|i: int| 0 <= i < patterns.len() && label_prefix(#[trigger] patterns[i], origin)
}

/// Whether an origin constraint holds for a request from the (reversed)
/// `origin`.
pub open spec fn origin_gate(c: OriginView, origin: Option<Seq<char>>) -> bool {
    match c {
        OriginView::Any => true,
        OriginView::OnlyOn(l) => match origin {
            Some(o) => origin_in_list(o, l),
            None => false,
        },
        OriginView::ExceptOn(l) => match origin {
            Some(o) => !origin_in_list(o, l),
            None => true,
        },
    }
}

/// What a rule does on a request from the (reversed) `origin`: a whitelist
/// allows where its origin constraint holds and blocks elsewhere; the other
/// rules do what their action says.
pub open spec fn effective_action(r: RuleView, origin: Option<Seq<char>>) -> Action {
    match r.action {
        Action::Whitelist => if origin_gate(r.origin, origin) {
            Action::Allow
        } else {
            Action::Block
        },
        Action::Allow => Action::Allow,
        Action::Block => Action::Block,
    }
}

/// Whether a rule restricted to some resource types covers a request of
/// type `mask` when it acts as `act`: a rule for all types (0) covers every
/// request; otherwise a request of a known type must share a type with the
/// rule, and a request of unknown type (0) is covered by blocking only, so
/// that an exception for some types never lifts a block on a request whose
/// type is unknown.
pub open spec fn mask_covers(r: RuleView, act: Action, mask: u16) -> bool {
    r.resource_mask == 0 || r.resource_mask & mask != 0 || (mask == 0 && act == Action::Block)
}

/// Whether a rule fires for a request with the given (reversed) origin,
/// resource mask and third-party flag. A whitelist fires on every origin
/// (allowing on some, blocking on the others); any other rule fires only
/// where its origin constraint holds.
pub open spec fn rule_applies(r: RuleView, origin: Option<Seq<char>>, mask: u16, third_party: bool) -> bool {
    &&& !(r.third_party_only && !third_party)
    &&& mask_covers(r, effective_action(r, origin), mask)
    &&& (r.action == Action::Whitelist || origin_gate(r.origin, origin))
}

/// A rule fires for the request and acts as `action` on it.
pub open spec fn fires_as(
    r: RuleView,
    origin: Option<Seq<char>>,
    mask: u16,
    third_party: bool,
    action: Action,
) -> bool {
    rule_applies(r, origin, mask, third_party) && effective_action(r, origin) == action
}

/// Whether the reversed `origin` is one of the reversed `patterns` or below one.
pub fn origin_in_list_exec(origin: &[char], patterns: &Vec<String>) -> (r: bool)
    ensures
        r == origin_in_list(origin@, patterns.deep_view()),
{
    let n = patterns.len();
    let mut i: usize = 0;
    while i < n
        invariant
            n == patterns@.len(),
            i <= n,
            forall|j: int| 0 <= j < i ==> !label_prefix(#[trigger] patterns.deep_view()[j], origin@),
        decreases n - i,
    {
        let p = chars_of(patterns[i].as_str());
        assert(p@ == patterns.deep_view()[i as int]);
        if label_prefix_exec(&p, origin) {
            return true;
        }
        i = i + 1;
    }
    false
}

impl Rule {
    /// Whether the origin constraint of this rule holds for the (reversed)
    /// `origin`.
    fn origin_holds(&self, origin: Option<&[char]>) -> (r: bool)
        ensures
            r == origin_gate(self.origin_constraint@, match origin {
                Some(o) => Some(o@),
                None => None,
            }),
    {
        match &self.origin_constraint {
            OriginConstraint::Any => true,
            OriginConstraint::OnlyOn(list) => match origin {
                Some(o) => origin_in_list_exec(o, list),
                None => false,
            },
            OriginConstraint::ExceptOn(list) => match origin {
                Some(o) => !origin_in_list_exec(o, list),
                None => true,
            },
        }
    }

    /// What this rule does on a request from the (reversed) `origin`.
    pub fn action_on(&self, origin: Option<&[char]>) -> (a: Action)
        ensures
            a == effective_action(self@, match origin {
                Some(o) => Some(o@),
                None => None,
            }),
    {
        match self.action {
            Action::Whitelist => if self.origin_holds(origin) {
                Action::Allow
            } else {
                Action::Block
            },
            Action::Allow => Action::Allow,
            Action::Block => Action::Block,
        }
    }

    /// Returns true if this rule fires given the request context
    /// (`origin` already reversed).
    pub fn matches_context(&self, origin: Option<&[char]>, resource_mask: u16, is_third_party: bool) -> (r: bool)
        ensures
            r == rule_applies(self@, match origin {
                Some(o) => Some(o@),
                None => None,
            }, resource_mask, is_third_party),
    {
        // Third-party gate
        if self.third_party_only && !is_third_party {
            return false;
        }
        let act = self.action_on(origin);
        // Resource type gate: a rule for specific types covers requests of
        // those types; a request of unknown type (ALL) is covered by
        // blocking only.
        if self.resource_mask != 0 && self.resource_mask & resource_mask == 0 {
            let unknown_type_block = resource_mask == 0 && act == Action::Block;
            if !unknown_type_block {
                return false;
            }
        }
        // Origin constraint gate (a whitelist acts on every origin)
        match self.action {
            Action::Whitelist => true,
            _ => self.origin_holds(origin),
        }
    }
}

} // verus!
