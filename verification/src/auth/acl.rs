//! Access rules from a JSON document.
//!
//! A user may publish to what `users.<name>.acl.publish` lists and subscribe to
//! what `users.<name>.acl.subscribe` lists, or to what the same members below
//! `tenants.<tenant>` list. Whatever is not there allows nothing.
use crate::auth::value;
use crate::auth::value::{as_list, as_text, find_user, get, parse_document};
use crate::broker::traits::{AclChecker, AclDecision, TenantId};
use crate::text;
use crate::text::split_ascii;
use crate::topic;
use crate::topic::filter_matches;
use hotaru_core::Value;
use std::sync::Arc;
use vstd::prelude::*;
use vstd::string::*;

verus! {

/// Access rules from a JSON document.
pub struct JsonAclChecker {
    pub snapshot: Value,
}

/// The texts among documents, in order.
pub open spec fn texts(l: Seq<Value>) -> Seq<Seq<char>>
    decreases l.len(),
{
    if l.len() == 0 {
        Seq::empty()
    } else {
        match value::text_of(l.last()) {
            Some(s) => texts(l.drop_last()).push(s),
            None => texts(l.drop_last()),
        }
    }
}

/// The patterns that a user is granted; none where anything on the way to them is
/// missing.
pub open spec fn patterns(
    v: Value,
    tenant: Option<Seq<char>>,
    username: Option<Seq<char>>,
    kind: Seq<char>,
) -> Seq<Seq<char>> {
    match username {
        None => Seq::empty(),
        Some(name) => match value::then_member(
            value::then_member(value::user_of(v, tenant, name), "acl"@),
            kind,
        ) {
            Some(x) => match value::list_of(x) {
                Some(l) => texts(l),
                None => Seq::empty(),
            },
            None => Seq::empty(),
        },
    }
}

/// Whether one of the patterns matches a topic, or a filter level by level.
pub open spec fn granted(patterns: Seq<Seq<char>>, name: Seq<char>) -> bool {
    exists|i: int| 0 <= i < patterns.len() && topic::matches(#[trigger] patterns[i], name)
}

/// What the rules say.
pub open spec fn verdict(
    v: Value,
    tenant: Option<Seq<char>>,
    username: Option<Seq<char>>,
    kind: Seq<char>,
    name: Seq<char>,
) -> AclDecision {
    if granted(patterns(v, tenant, username, kind), name) {
        AclDecision::Allow
    } else {
        AclDecision::Deny
    }
}

/// Strings as texts.
pub open spec fn strings(v: Seq<String>) -> Seq<Seq<char>> {
    Seq::new(v.len(), |i: int| v[i]@)
}

fn opt_str<'a>(a: Option<&'a Arc<str>>) -> (r: Option<&'a str>)
    ensures
        value::opt_text(r) == text::opt_ref_chars(a),
{
    match a {
        Some(x) => Some(x),
        None => None,
    }
}

/// Whether one of the patterns matches.
pub fn any_matches(patterns: &Vec<String>, name: &str) -> (r: bool)
    ensures
        r == granted(strings(patterns@), name@),
{
    let segs: Vec<&str> = split_ascii(name, 0x2F);
    let ghost all = strings(patterns@);
    let mut i: usize = 0;
    while i < patterns.len()
        invariant
            i <= patterns@.len(),
            all == strings(patterns@),
            text::all_chars(segs@) == text::levels(name@),
            forall|j: int| 0 <= j < i ==> !topic::matches(#[trigger] all[j], name@),
        decreases patterns@.len() - i,
    {
        if filter_matches(patterns[i].as_str(), segs.as_slice()) {
            assert(topic::matches(all[i as int], name@));
            return true;
        }
        assert(!topic::matches(all[i as int], name@));
        i += 1;
    }
    false
}

impl JsonAclChecker {
    /// Reads the rules.
    pub fn from_str(json: &str) -> (r: Result<JsonAclChecker, String>)
        ensures
            match value::document(json@) {
                Ok(v) => r matches Ok(c) && c.snapshot == v,
                Err(e) => r matches Err(s) && s@ == e,
            },
    {
        match parse_document(json) {
            Ok(snapshot) => Ok(JsonAclChecker { snapshot }),
            Err(e) => Err(e),
        }
    }

    pub fn from_snapshot(snapshot: Value) -> (r: JsonAclChecker)
        ensures
            r.snapshot == snapshot,
    {
        JsonAclChecker { snapshot }
    }

    /// The patterns that a user is granted.
    fn allowed_patterns(
        &self,
        tenant: Option<&TenantId>,
        username: Option<&Arc<str>>,
        kind: &str,
    ) -> (r: Vec<String>)
        ensures
            strings(r@) == patterns(
                self.snapshot,
                text::opt_ref_chars(tenant),
                text::opt_ref_chars(username),
                kind@,
            ),
    {
        let mut out: Vec<String> = Vec::new();
        assert(strings(out@) =~= Seq::<Seq<char>>::empty());
        let name: &str = match opt_str(username) {
            Some(n) => n,
            None => {
                return out;
            },
        };
        let list: &Vec<Value> = match find_user(&self.snapshot, opt_str(tenant), name) {
            Some(user) => match get(user, "acl") {
                Some(acl) => match get(acl, kind) {
                    Some(l) => match as_list(l) {
                        Some(l) => l,
                        None => {
                            return out;
                        },
                    },
                    None => {
                        return out;
                    },
                },
                None => {
                    return out;
                },
            },
            None => {
                return out;
            },
        };
        let mut i: usize = 0;
        assert(texts(list@.take(0)) =~= Seq::<Seq<char>>::empty());
        while i < list.len()
            invariant
                i <= list@.len(),
                strings(out@) == texts(list@.take(i as int)),
            decreases list@.len() - i,
        {
            proof {
                assert(list@.take(i + 1).drop_last() =~= list@.take(i as int));
                assert(list@.take(i + 1).last() == list@[i as int]);
            }
            match as_text(&list[i]) {
                Some(s) => {
                    let ghost before = out@;
                    let owned: String = s.to_owned();
                    out.push(owned);
                    assert(strings(out@) =~= strings(before).push(s@));
                },
                None => {},
            }
            i += 1;
        }
        assert(list@.take(i as int) =~= list@);
        out
    }
}

impl AclChecker for JsonAclChecker {
    fn check_subscribe(
        &self,
        tenant: Option<&TenantId>,
        _client_id: &Arc<str>,
        username: Option<&Arc<str>>,
        filter: &str,
    ) -> (r: AclDecision)
        ensures
            r == verdict(
                self.snapshot,
                text::opt_ref_chars(tenant),
                text::opt_ref_chars(username),
                "subscribe"@,
                filter@,
            ),
    {
        if any_matches(&self.allowed_patterns(tenant, username, "subscribe"), filter) {
            AclDecision::Allow
        } else {
            AclDecision::Deny
        }
    }

    fn check_publish(
        &self,
        tenant: Option<&TenantId>,
        _client_id: &Arc<str>,
        username: Option<&Arc<str>>,
        topic: &str,
    ) -> (r: AclDecision)
        ensures
            r == verdict(
                self.snapshot,
                text::opt_ref_chars(tenant),
                text::opt_ref_chars(username),
                "publish"@,
                topic@,
            ),
    {
        if any_matches(&self.allowed_patterns(tenant, username, "publish"), topic) {
            AclDecision::Allow
        } else {
            AclDecision::Deny
        }
    }
}

// ----------------------------------------------------------------------------
// Laws
// ----------------------------------------------------------------------------

/// Nothing is allowed by default: neither to a client without a name, nor to a user
/// that the document does not know, nor to one without rules.
pub proof fn law_deny_by_default(
    v: Value,
    tenant: Option<Seq<char>>,
    username: Option<Seq<char>>,
    kind: Seq<char>,
    name: Seq<char>,
)
    requires
        username is None || value::user_of(v, tenant, username->0) is None || value::then_member(
            value::user_of(v, tenant, username->0),
            "acl"@,
        ) is None,
    ensures
        verdict(v, tenant, username, kind, name) == AclDecision::Deny,
{
}

/// A topic that starts with `$` is granted only by a pattern that does not start
/// with a wildcard.
pub proof fn law_dollar_needs_its_own_grant(patterns: Seq<Seq<char>>, name: Seq<char>)
    requires
        topic::is_dollar(name),
        forall|i: int|
            0 <= i < patterns.len() ==> text::levels(#[trigger] patterns[i])[0] == topic::plus()
                || text::levels(patterns[i])[0] == topic::hash(),
    ensures
        !granted(patterns, name),
{
    assert forall|i: int| 0 <= i < patterns.len() implies !topic::matches(
        #[trigger] patterns[i],
        name,
    ) by {
        topic::law_dollar_guard(patterns[i], name);
    }
}

/// Whether these are the users of a tenant in a document: its member `users`, or
/// for a named tenant the member `users` of what stands under its name in `tenants`.
pub open spec fn has_users(
    v: Value,
    tenant: Option<Seq<char>>,
    users: Map<Seq<char>, Value>,
) -> bool {
    match tenant {
        None => {
            &&& value::dict_of(v) matches Some(top)
            &&& top.contains_key("users"@)
            &&& value::dict_of(top["users"@]) == Some(users)
        },
        Some(t) => {
            &&& value::dict_of(v) matches Some(top)
            &&& top.contains_key("tenants"@)
            &&& value::dict_of(top["tenants"@]) matches Some(tenants)
            &&& tenants.contains_key(t)
            &&& value::dict_of(tenants[t]) matches Some(own)
            &&& own.contains_key("users"@)
            &&& value::dict_of(own["users"@]) == Some(users)
        },
    }
}

/// Whether this is the list of a user's rules of one kind.
pub open spec fn has_rules(
    users: Map<Seq<char>, Value>,
    name: Seq<char>,
    kind: Seq<char>,
    rules: Seq<Value>,
) -> bool {
    &&& users.contains_key(name)
    &&& value::dict_of(users[name]) matches Some(user)
    &&& user.contains_key("acl"@)
    &&& value::dict_of(user["acl"@]) matches Some(acl)
    &&& acl.contains_key(kind)
    &&& value::list_of(acl[kind]) == Some(rules)
}

/// Whether a rule is a text that covers a name place by place.
pub open spec fn rule_covers(rule: Value, name: Seq<char>, k: int) -> bool {
    value::text_of(rule) matches Some(s) && topic::covers_by_place(s, name, k)
}

proof fn lemma_texts_hold(l: Seq<Value>, s: Seq<char>)
    ensures
        texts(l).contains(s) <==> exists|i: int|
            0 <= i < l.len() && value::text_of(#[trigger] l[i]) == Some(s),
    decreases l.len(),
{
    if l.len() > 0 {
        let front = l.drop_last();
        lemma_texts_hold(front, s);
        if texts(l).contains(s) {
            let j = choose|j: int| 0 <= j < texts(l).len() && texts(l)[j] == s;
            if j < texts(front).len() {
                assert(texts(front)[j] == s);
                let i = choose|i: int|
                    0 <= i < front.len() && value::text_of(#[trigger] front[i]) == Some(s);
                assert(l[i] == front[i]);
            } else {
                assert(value::text_of(l[l.len() - 1]) == Some(s));
            }
        }
        if exists|i: int| 0 <= i < l.len() && value::text_of(#[trigger] l[i]) == Some(s) {
            let i = choose|i: int|
                0 <= i < l.len() && value::text_of(#[trigger] l[i]) == Some(s);
            if i < front.len() {
                assert(front[i] == l[i]);
                let j = choose|j: int| 0 <= j < texts(front).len() && texts(front)[j] == s;
                assert(texts(l)[j] == s);
            } else {
                assert(texts(l).last() == s);
            }
        }
    }
}

/// A user may publish to a topic, or subscribe to a filter, exactly where a text in
/// the list of its rules covers it, level by level and each level of it taken as it
/// stands. So whatever stands in the list is itself allowed, wildcards and all.
pub proof fn law_listed_rules_decide(
    v: Value,
    tenant: Option<Seq<char>>,
    user: Seq<char>,
    kind: Seq<char>,
    name: Seq<char>,
    users: Map<Seq<char>, Value>,
    rules: Seq<Value>,
)
    requires
        has_users(v, tenant, users),
        has_rules(users, user, kind, rules),
    ensures
        verdict(v, tenant, Some(user), kind, name) == AclDecision::Allow <==> exists|i: int, k: int|
            0 <= i < rules.len() && #[trigger] rule_covers(rules[i], name, k),
        (exists|i: int| 0 <= i < rules.len() && value::text_of(#[trigger] rules[i]) == Some(name))
            ==> verdict(v, tenant, Some(user), kind, name) == AclDecision::Allow,
        verdict(v, tenant, None, kind, name) == AclDecision::Deny,
{
    let all = patterns(v, tenant, Some(user), kind);
    assert(all == texts(rules));
    if granted(all, name) {
        let j = choose|j: int| 0 <= j < all.len() && topic::matches(#[trigger] all[j], name);
        lemma_texts_hold(rules, all[j]);
        assert(texts(rules).contains(all[j]));
        let i = choose|i: int|
            0 <= i < rules.len() && value::text_of(#[trigger] rules[i]) == Some(all[j]);
        topic::law_matches_what_it_covers(all[j], name);
        let k = choose|k: int| #[trigger] topic::covers_by_place(all[j], name, k);
        assert(rule_covers(rules[i], name, k));
    }
    if exists|i: int, k: int|
        0 <= i < rules.len() && #[trigger] rule_covers(rules[i], name, k) {
        let (i, k) = choose|i: int, k: int|
            0 <= i < rules.len() && #[trigger] rule_covers(rules[i], name, k);
        let s = value::text_of(rules[i])->0;
        assert(topic::covers_by_place(s, name, k));
        topic::law_matches_what_it_covers(s, name);
        lemma_texts_hold(rules, s);
        assert(texts(rules).contains(s));
        let j = choose|j: int| 0 <= j < all.len() && all[j] == s;
        assert(topic::matches(all[j], name));
    }
    if exists|i: int| 0 <= i < rules.len() && value::text_of(#[trigger] rules[i]) == Some(name) {
        topic::lemma_matches_itself(name);
        lemma_texts_hold(rules, name);
        assert(texts(rules).contains(name));
        let j = choose|j: int| 0 <= j < all.len() && all[j] == name;
        assert(topic::matches(all[j], name));
    }
}

/// A user without a list of rules of this kind is allowed nothing of the kind.
pub proof fn law_no_rules_no_grant(
    v: Value,
    tenant: Option<Seq<char>>,
    user: Seq<char>,
    kind: Seq<char>,
    name: Seq<char>,
    users: Map<Seq<char>, Value>,
)
    requires
        has_users(v, tenant, users),
        forall|rules: Seq<Value>| !(#[trigger] has_rules(users, user, kind, rules)),
    ensures
        verdict(v, tenant, Some(user), kind, name) == AclDecision::Deny,
{
    if users.contains_key(user) {
        if let Some(own) = value::dict_of(users[user]) {
            if own.contains_key("acl"@) {
                if let Some(acl) = value::dict_of(own["acl"@]) {
                    if acl.contains_key(kind) {
                        if let Some(rules) = value::list_of(acl[kind]) {
                            assert(has_rules(users, user, kind, rules));
                        }
                    }
                }
            }
        }
    }
}

} // verus!
