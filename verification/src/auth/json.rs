//! Authentication against a JSON document.
//!
//! The hash of a user is `users.<name>.password`, or the same member below
//! `tenants.<tenant>`.
use crate::auth::acl;
use crate::auth::password;
use crate::auth::password::{
    derive_key, write_pbkdf2, DefaultPasswordVerifier, PasswordHash, PasswordVerifier,
};
use crate::auth::value;
use crate::auth::value::{as_text, find_user, find_users, get, members, parse_document};
use crate::broker::traits::{AuthResult, Authenticator, TenantId};
use crate::buffer::secret_slice;
use crate::channel::SocketAddress;
use crate::packet::{ConnackReturnCode, ConnectPacket};
use crate::text;
use crate::text::decimal_text;
use hotaru_core::Value;
use std::sync::Arc;
use vstd::prelude::*;
use vstd::string::*;

verus! {

/// The rounds of the hash that stands in for a user that is not there, if the
/// document has none.
pub const DEFAULT_DUMMY_ROUNDS: u32 = 10_000;

/// Authentication against a JSON document.
///
/// A password is checked exactly once whatever comes: against the hash of the user,
/// or against a dummy of the same cost where there is no such user.
pub struct JsonAuthenticator<V> {
    pub snapshot: Value,
    pub verifier: V,
    pub dummy_hash: String,
}

/// The hash of a user.
pub open spec fn stored_hash(v: Value, tenant: Option<Seq<char>>, name: Seq<char>) -> Option<
    Seq<char>,
> {
    match value::then_member(value::user_of(v, tenant, name), "password"@) {
        Some(p) => value::text_of(p),
        None => None,
    }
}

/// A tenant and a user of it.
pub type UserPath = (Option<Seq<char>>, Seq<char>);

/// The rounds of a hash, if it is one of PBKDF2.
pub open spec fn rounds_of(hash: Option<Seq<char>>) -> Option<u32> {
    match hash {
        Some(h) => match password::parsed(h) {
            Some(password::HashModel::Pbkdf2Sha512 { rounds, .. }) => Some(rounds),
            _ => None,
        },
        None => None,
    }
}

/// The rounds of a user.
pub open spec fn rounds_at(v: Value, p: UserPath) -> Option<u32> {
    rounds_of(stored_hash(v, p.0, p.1))
}

/// Whether these are the rounds of these users, and there are no others that have
/// any.
pub open spec fn lists_rounds(r: Seq<u32>, paths: Seq<UserPath>, v: Value) -> bool {
    &&& r.len() == paths.len()
    &&& paths.no_duplicates()
    &&& forall|i: int| 0 <= i < paths.len() ==> rounds_at(v, #[trigger] paths[i]) == Some(r[i])
    &&& forall|p: UserPath| #[trigger] rounds_at(v, p) is Some ==> paths.contains(p)
}

/// The values of the rounds that occur.
pub open spec fn rounds_set(v: Value) -> Set<u32> {
    Set::new(|x: u32| exists|p: UserPath| #[trigger] rounds_at(v, p) == Some(x))
}

/// How often a value occurs.
pub open spec fn occurrences(r: Seq<u32>, x: u32) -> nat
    decreases r.len(),
{
    if r.len() == 0 {
        0
    } else {
        occurrences(r.drop_last(), x) + if r.last() == x {
            1nat
        } else {
            0
        }
    }
}

/// Whether a value occurs, and none occurs more often.
pub open spec fn is_mode(r: Seq<u32>, x: u32) -> bool {
    &&& r.contains(x)
    &&& forall|y: u32| #[trigger] occurrences(r, y) <= occurrences(r, x)
}

/// The password and the salt of the dummy.
pub open spec fn dummy_password() -> Seq<u8> {
    "hotaru-mqtt-dummy-pw".spec_bytes()
}

pub open spec fn dummy_salt() -> Seq<u8> {
    "hotaru-mqtt-dummy-salt-v1".spec_bytes()
}

/// The dummy with this many rounds.
pub open spec fn dummy_text(rounds: u32) -> Seq<char> {
    password::pbkdf2_text(
        rounds,
        dummy_salt(),
        password::derived_key(dummy_password(), dummy_salt(), rounds, 32),
    )
}

/// A hash of a throwaway password, which costs as much to check as a real one.
fn build_dummy_phc(rounds: u32) -> (r: String)
    ensures
        r@ == dummy_text(rounds),
        rounds > 0 ==> rounds_of(Some(r@)) == Some(rounds),
{
    let salt_text = "hotaru-mqtt-dummy-salt-v1";
    proof {
        reveal_strlit("hotaru-mqtt-dummy-salt-v1");
        assert(is_ascii(salt_text)) by {
            assert forall|i: int| 0 <= i < 25 implies 0 <= #[trigger] salt_text@[i] as nat
                && (salt_text@[i] as nat) < 128 by {}
        }
        is_ascii_spec_bytes(salt_text);
    }
    let salt = salt_text.as_bytes();
    let pw = "hotaru-mqtt-dummy-pw".as_bytes();
    match derive_key(pw, salt, rounds, 32) {
        Some(key) => write_pbkdf2(rounds, salt, secret_slice(&key)),
        None => String::new(),
    }
}

// ----------------------------------------------------------------------------
// The rounds in a document
// ----------------------------------------------------------------------------

/// Whether these are the rounds of these users of one tenant, and there are no
/// others of that tenant that have any.
spec fn lists_tenant(r: Seq<u32>, names: Seq<Seq<char>>, v: Value, tenant: Option<Seq<char>>) -> bool {
    &&& r.len() == names.len()
    &&& names.no_duplicates()
    &&& forall|i: int|
        0 <= i < names.len() ==> rounds_at(v, (tenant, #[trigger] names[i])) == Some(r[i])
    &&& forall|n: Seq<char>| #[trigger] rounds_at(v, (tenant, n)) is Some ==> names.contains(n)
}

fn pbkdf2_rounds(user: &Value) -> (r: Option<u32>)
    ensures
        r == rounds_of(
            match value::member(*user, "password"@) {
                Some(p) => value::text_of(p),
                None => None,
            },
        ),
{
    match get(user, "password") {
        Some(p) => match as_text(p) {
            Some(hash) => match PasswordHash::parse(hash) {
                Some(PasswordHash::Pbkdf2Sha512 { rounds, .. }) => Some(rounds),
                _ => None,
            },
            None => None,
        },
        None => None,
    }
}

/// The rounds of the users of one tenant.
fn collect_user_rounds(v: &Value, tenant: Option<&str>) -> (r: (Vec<u32>, Ghost<Seq<Seq<char>>>))
    ensures
        lists_tenant(r.0@, r.1@, *v, value::opt_text(tenant)),
{
    let ghost t = value::opt_text(tenant);
    let mut out: Vec<u32> = Vec::new();
    let mut names: Ghost<Seq<Seq<char>>> = Ghost(Seq::empty());
    let users: &Value = match find_users(v, tenant) {
        Some(u) => u,
        None => {
            return (out, names);
        },
    };
    let list = members(users);
    let mut i: usize = 0;
    while i < list.len()
        invariant
            i <= list@.len(),
            value::users_of(*v, t) == Some(*users),
            t == value::opt_text(tenant),
            value::dict_of(*users) is None ==> list@.len() == 0,
            value::dict_of(*users) matches Some(m) ==> value::lists_members(list@, m),
            out@.len() == names@.len(),
            names@.no_duplicates(),
            forall|j: int|
                0 <= j < names@.len() ==> rounds_at(*v, (t, #[trigger] names@[j])) == Some(out@[j]),
            forall|n: Seq<char>| #[trigger]
                names@.contains(n) ==> exists|j: int| 0 <= j < i && (#[trigger] list@[j]).0@ == n,
            forall|j: int|
                0 <= j < i && rounds_at(*v, (t, (#[trigger] list@[j]).0@)) is Some
                    ==> names@.contains(list@[j].0@),
        decreases list@.len() - i,
    {
        let ghost name = list@[i as int].0@;
        let ghost before = names@;
        let ghost m = value::dict_of(*users)->0;
        proof {
            assert(m.contains_key(list@[i as int].0@));
            assert(value::user_of(*v, t, name) == Some(*list@[i as int].1));
        }
        match pbkdf2_rounds(list[i].1) {
            Some(x) => {
                proof {
                    assert(!before.contains(name)) by {
                        if before.contains(name) {
                            let j = choose|j: int| 0 <= j < i && (#[trigger] list@[j]).0@ == name;
                            assert(list@[j].0@ != list@[i as int].0@);
                        }
                    }
                    names@ = before.push(name);
                    assert forall|n: Seq<char>| #[trigger] names@.contains(n) <==> before.contains(n)
                        || n == name by {
                        if before.contains(n) {
                            let j = choose|j: int| 0 <= j < before.len() && before[j] == n;
                            assert(names@[j] == n);
                        }
                        if n == name {
                            assert(names@[before.len() as int] == n);
                        }
                    }
                }
                out.push(x);
            },
            None => {},
        }
        i += 1;
    }
    proof {
        assert forall|n: Seq<char>| #[trigger] rounds_at(*v, (t, n)) is Some implies names@.contains(
            n,
        ) by {
            let m = value::dict_of(*users)->0;
            assert(m.contains_key(n));
            let j = choose|j: int| 0 <= j < list@.len() && (#[trigger] list@[j]).0@ == n;
            assert(rounds_at(*v, (t, list@[j].0@)) is Some);
        }
    }
    (out, names)
}

/// The paths of users of a tenant.
spec fn in_tenant(tenant: Option<Seq<char>>, names: Seq<Seq<char>>) -> Seq<UserPath> {
    Seq::new(names.len(), |i: int| (tenant, names[i]))
}

proof fn lemma_append(
    r: Seq<u32>,
    paths: Seq<UserPath>,
    v: Value,
    tenant: Option<Seq<char>>,
    more: Seq<u32>,
    names: Seq<Seq<char>>,
)
    requires
        r.len() == paths.len(),
        paths.no_duplicates(),
        forall|i: int| 0 <= i < paths.len() ==> rounds_at(v, #[trigger] paths[i]) == Some(r[i]),
        forall|i: int| 0 <= i < paths.len() ==> (#[trigger] paths[i]).0 != tenant,
        lists_tenant(more, names, v, tenant),
    ensures
        ({
            let all = paths + in_tenant(tenant, names);
            &&& (r + more).len() == all.len()
            &&& all.no_duplicates()
            &&& forall|i: int|
                0 <= i < all.len() ==> rounds_at(v, #[trigger] all[i]) == Some((r + more)[i])
            &&& forall|p: UserPath| #[trigger]
                all.contains(p) <==> paths.contains(p) || (p.0 == tenant && names.contains(p.1))
        }),
{
    let extra = in_tenant(tenant, names);
    let all = paths + extra;
    assert forall|i: int, j: int| 0 <= i < j < all.len() implies all[i] != all[j] by {
        if j < paths.len() {
        } else if i < paths.len() {
            assert(paths[i].0 != tenant);
        } else {
            assert(names[i - paths.len()] != names[j - paths.len()]);
        }
    }
    assert forall|i: int| 0 <= i < all.len() implies rounds_at(v, #[trigger] all[i]) == Some(
        (r + more)[i],
    ) by {
        if i < paths.len() {
            assert(all[i] == paths[i]);
        } else {
            assert(all[i] == (tenant, names[i - paths.len()]));
        }
    }
    assert forall|p: UserPath| #[trigger] all.contains(p) <==> paths.contains(p) || (p.0 == tenant
        && names.contains(p.1)) by {
        if all.contains(p) {
            let i = choose|i: int| 0 <= i < all.len() && all[i] == p;
            if i < paths.len() {
                assert(paths[i] == p);
            } else {
                assert(names[i - paths.len()] == p.1);
            }
        }
        if paths.contains(p) {
            let i = choose|i: int| 0 <= i < paths.len() && paths[i] == p;
            assert(all[i] == p);
        }
        if p.0 == tenant && names.contains(p.1) {
            let i = choose|i: int| 0 <= i < names.len() && names[i] == p.1;
            assert(all[paths.len() + i] == p);
        }
    }
}

/// The rounds of all users, one for each that has any.
fn collect_rounds(v: &Value) -> (r: (Vec<u32>, Ghost<Seq<UserPath>>))
    ensures
        lists_rounds(r.0@, r.1@, *v),
{
    let (first, first_names) = collect_user_rounds(v, None);
    let mut out: Vec<u32> = Vec::new();
    let mut paths: Ghost<Seq<UserPath>> = Ghost(Seq::empty());
    proof {
        lemma_append(out@, paths@, *v, None, first@, first_names@);
        paths@ = paths@ + in_tenant(None, first_names@);
    }
    append_all(&mut out, &first);
    assert forall|i: int| 0 <= i < paths@.len() implies (#[trigger] paths@[i]).0 is None by {}
    let tenants: &Value = match get(v, "tenants") {
        Some(t) => t,
        None => {
            assert(lists_rounds(out@, paths@, *v)) by {
                assert forall|p: UserPath| #[trigger] rounds_at(*v, p) is Some implies paths@.contains(
                    p,
                ) by {
                    assert(p.0 is None);
                    assert(rounds_at(*v, (None, p.1)) is Some);
                }
            }
            return (out, paths);
        },
    };
    let list = members(tenants);
    let mut i: usize = 0;
    while i < list.len()
        invariant
            i <= list@.len(),
            value::member(*v, "tenants"@) == Some(*tenants),
            value::dict_of(*tenants) is None ==> list@.len() == 0,
            value::dict_of(*tenants) matches Some(m) ==> value::lists_members(list@, m),
            out@.len() == paths@.len(),
            paths@.no_duplicates(),
            forall|j: int| 0 <= j < paths@.len() ==> rounds_at(*v, #[trigger] paths@[j]) == Some(out@[j]),
            forall|j: int|
                0 <= j < paths@.len() ==> ((#[trigger] paths@[j]).0 is None || exists|k: int|
                    0 <= k < i && paths@[j].0 == Some((#[trigger] list@[k]).0@)),
            forall|n: Seq<char>| #[trigger]
                rounds_at(*v, (None, n)) is Some ==> paths@.contains((None, n)),
            forall|k: int, n: Seq<char>|
                0 <= k < i && #[trigger] rounds_at(*v, (Some((#[trigger] list@[k]).0@), n)) is Some
                    ==> paths@.contains((Some(list@[k].0@), n)),
        decreases list@.len() - i,
    {
        let ghost t = Some(list@[i as int].0@);
        let (more, names) = collect_user_rounds(v, Some(list[i].0.as_str()));
        let ghost before = paths@;
        proof {
            assert forall|j: int| 0 <= j < before.len() implies (#[trigger] before[j]).0 != t by {
                if before[j].0 is Some {
                    let k = choose|k: int| 0 <= k < i && before[j].0 == Some((#[trigger] list@[k]).0@);
                    assert(list@[k].0@ != list@[i as int].0@);
                }
            }
            lemma_append(out@, before, *v, t, more@, names@);
            paths@ = before + in_tenant(t, names@);
            assert forall|j: int| 0 <= j < paths@.len() implies ((#[trigger] paths@[j]).0 is None
                || exists|k: int|
                0 <= k < i + 1 && paths@[j].0 == Some((#[trigger] list@[k]).0@)) by {
                if j < before.len() {
                    assert(paths@[j] == before[j]);
                    if before[j].0 is Some {
                        let k = choose|k: int|
                            0 <= k < i && before[j].0 == Some((#[trigger] list@[k]).0@);
                        assert(0 <= k < i + 1 && paths@[j].0 == Some(list@[k].0@));
                    }
                } else {
                    assert(paths@[j].0 == Some(list@[i as int].0@));
                }
            }
        }
        append_all(&mut out, &more);
        i += 1;
    }
    proof {
        assert forall|p: UserPath| #[trigger] rounds_at(*v, p) is Some implies paths@.contains(p) by {
            match p.0 {
                None => {
                    assert(rounds_at(*v, (None, p.1)) is Some);
                    assert(p == (None::<Seq<char>>, p.1));
                },
                Some(t) => {
                    let m = value::dict_of(*tenants)->0;
                    assert(m.contains_key(t));
                    let k = choose|k: int| 0 <= k < list@.len() && (#[trigger] list@[k]).0@ == t;
                    assert(rounds_at(*v, (Some(list@[k].0@), p.1)) is Some);
                    assert(p == (Some(list@[k].0@), p.1));
                },
            }
        }
    }
    (out, paths)
}

fn append_all(out: &mut Vec<u32>, more: &Vec<u32>)
    ensures
        final(out)@ == old(out)@ + more@,
{
    let mut i: usize = 0;
    while i < more.len()
        invariant
            i <= more@.len(),
            out@ =~= old(out)@ + more@.take(i as int),
        decreases more@.len() - i,
    {
        out.push(more[i]);
        i += 1;
    }
    assert(more@.take(i as int) =~= more@);
}

fn count_of(r: &Vec<u32>, x: u32) -> (n: usize)
    ensures
        n == occurrences(r@, x),
{
    let mut n: usize = 0;
    let mut i: usize = 0;
    while i < r.len()
        invariant
            i <= r@.len(),
            n <= i,
            n == occurrences(r@.take(i as int), x),
        decreases r@.len() - i,
    {
        proof {
            assert(r@.take(i + 1).drop_last() =~= r@.take(i as int));
        }
        if r[i] == x {
            n += 1;
        }
        i += 1;
    }
    assert(r@.take(i as int) =~= r@);
    n
}

proof fn lemma_absent(r: Seq<u32>, x: u32)
    requires
        !r.contains(x),
    ensures
        occurrences(r, x) == 0,
    decreases r.len(),
{
    if r.len() > 0 {
        assert(r[r.len() - 1] != x);
        assert(!r.drop_last().contains(x)) by {
            if r.drop_last().contains(x) {
                let i = choose|i: int| 0 <= i < r.drop_last().len() && r.drop_last()[i] == x;
                assert(r[i] == x);
            }
        }
        lemma_absent(r.drop_last(), x);
    }
}

/// The most frequent rounds of a document; none where no user has any.
pub fn detect_modal_rounds(snapshot: &Value) -> (r: Option<u32>)
    ensures
        r is None <==> forall|p: UserPath| #[trigger] rounds_at(*snapshot, p) is None,
        r matches Some(x) ==> exists|all: Seq<u32>, paths: Seq<UserPath>| #[trigger]
            lists_rounds(all, paths, *snapshot) && is_mode(all, x),
{
    let (all, paths) = collect_rounds(snapshot);
    if all.len() == 0 {
        proof {
            assert forall|p: UserPath| #[trigger] rounds_at(*snapshot, p) is None by {
                if rounds_at(*snapshot, p) is Some {
                    assert(paths@.contains(p));
                }
            }
        }
        return None;
    }
    let mut best: u32 = all[0];
    let mut best_count: usize = count_of(&all, best);
    let mut i: usize = 1;
    while i < all.len()
        invariant
            1 <= i <= all@.len(),
            all@.contains(best),
            best_count == occurrences(all@, best),
            forall|j: int| 0 <= j < i ==> occurrences(all@, #[trigger] all@[j]) <= best_count,
        decreases all@.len() - i,
    {
        let n: usize = count_of(&all, all[i]);
        if n > best_count {
            best = all[i];
            best_count = n;
        }
        i += 1;
    }
    proof {
        assert forall|y: u32| #[trigger] occurrences(all@, y) <= occurrences(all@, best) by {
            if all@.contains(y) {
                let j = choose|j: int| 0 <= j < all@.len() && all@[j] == y;
                assert(occurrences(all@, all@[j]) <= best_count);
            } else {
                lemma_absent(all@, y);
            }
        }
        assert(rounds_at(*snapshot, paths@[0]) is Some);
    }
    Some(best)
}

proof fn lemma_rounds_set(r: Seq<u32>, paths: Seq<UserPath>, v: Value)
    requires
        lists_rounds(r, paths, v),
    ensures
        rounds_set(v) == r.to_set(),
        rounds_set(v).finite(),
{
    assert forall|x: u32| rounds_set(v).contains(x) <==> r.to_set().contains(x) by {
        if rounds_set(v).contains(x) {
            let p = choose|p: UserPath| #[trigger] rounds_at(v, p) == Some(x);
            assert(paths.contains(p));
            let i = choose|i: int| 0 <= i < paths.len() && paths[i] == p;
            assert(r[i] == x);
        }
        if r.to_set().contains(x) {
            let i = choose|i: int| 0 <= i < r.len() && r[i] == x;
            assert(rounds_at(v, paths[i]) == Some(x));
        }
    }
    assert(rounds_set(v) =~= r.to_set());
}

/// The values of the rounds of a document, once each.
fn distinct_rounds(v: &Value) -> (r: Vec<u32>)
    ensures
        r@.no_duplicates(),
        r@.to_set() == rounds_set(*v),
        r@.len() == rounds_set(*v).len(),
{
    let (all, paths) = collect_rounds(v);
    let mut out: Vec<u32> = Vec::new();
    let mut i: usize = 0;
    while i < all.len()
        invariant
            i <= all@.len(),
            out@.no_duplicates(),
            forall|x: u32| #[trigger] out@.contains(x) <==> all@.take(i as int).contains(x),
        decreases all@.len() - i,
    {
        let x: u32 = all[i];
        let ghost before = out@;
        let seen: bool = count_of(&out, x) > 0;
        proof {
            if !out@.contains(x) {
                lemma_absent(out@, x);
            } else {
                lemma_present(out@, x);
            }
            assert forall|y: u32| #[trigger] all@.take(i + 1).contains(y) <==> all@.take(
                i as int,
            ).contains(y) || y == x by {
                let next = all@.take(i + 1);
                if next.contains(y) {
                    let j = choose|j: int| 0 <= j < next.len() && next[j] == y;
                    if j < i {
                        assert(all@.take(i as int)[j] == y);
                    }
                }
                if all@.take(i as int).contains(y) {
                    let j = choose|j: int| 0 <= j < i && all@.take(i as int)[j] == y;
                    assert(all@.take(i + 1)[j] == y);
                }
                if y == x {
                    assert(all@.take(i + 1)[i as int] == y);
                }
            }
        }
        if !seen {
            out.push(x);
            proof {
                assert forall|y: u32| #[trigger] out@.contains(y) <==> before.contains(y) || y == x by {
                    if before.contains(y) {
                        let j = choose|j: int| 0 <= j < before.len() && before[j] == y;
                        assert(out@[j] == y);
                    }
                    if y == x {
                        assert(out@[before.len() as int] == y);
                    }
                }
            }
        }
        i += 1;
    }
    proof {
        assert(all@.take(i as int) =~= all@);
        lemma_rounds_set(all@, paths@, *v);
        assert(out@.to_set() =~= all@.to_set());
        out@.unique_seq_to_set();
    }
    out
}

proof fn lemma_present(r: Seq<u32>, x: u32)
    requires
        r.contains(x),
    ensures
        occurrences(r, x) > 0,
    decreases r.len(),
{
    let i = choose|i: int| 0 <= i < r.len() && r[i] == x;
    if i < r.len() - 1 {
        assert(r.drop_last()[i] == x);
        lemma_present(r.drop_last(), x);
    }
}

/// Whether users of a document have different rounds.
pub open spec fn mixed(v: Value) -> bool {
    rounds_set(v).len() > 1
}

/// The number of different rounds in a document.
pub fn count_distinct_rounds(snapshot: &Value) -> (r: usize)
    ensures
        r == rounds_set(*snapshot).len(),
{
    distinct_rounds(snapshot).len()
}

/// Why a document with these many different rounds is refused.
pub open spec fn mixed_message(n: nat) -> Seq<char> {
    "JsonAuthenticator: snapshot has "@ + text::decimal(n)
        + " distinct PBKDF2 `rounds` values; refusing to load (SAFETY_PROOF v5 \u{a7}7 F2). Re-hash all entries to a single `rounds` setting."@
}

/// Why a document is refused where all rounds must be the same.
pub open spec fn strict_message(n: nat) -> Seq<char> {
    if n == 0 {
        "snapshot has no PBKDF2 users \u{2014} strict mode cannot pin a dummy rounds value"@
    } else {
        "snapshot has "@ + text::decimal(n)
            + " distinct PBKDF2 `rounds` values; strict mode requires a single rounds setting across all users (SAFETY_PROOF v3 U4)"@
    }
}

/// The rounds that all users with any have; an error where there are none, or
/// different ones.
fn detect_uniform_rounds(snapshot: &Value) -> (r: Result<u32, String>)
    ensures
        rounds_set(*snapshot).len() == 1 ==> (r matches Ok(x) && rounds_set(*snapshot) == set![x]),
        rounds_set(*snapshot).len() != 1 ==> (r matches Err(e) && e@ == strict_message(
            rounds_set(*snapshot).len(),
        )),
{
    let all: Vec<u32> = distinct_rounds(snapshot);
    if all.len() == 0 {
        return Err(
            "snapshot has no PBKDF2 users \u{2014} strict mode cannot pin a dummy rounds value".to_owned(),
        );
    }
    if all.len() == 1 {
        proof {
            assert(all@.to_set() =~= set![all@[0]]) by {
                assert(all@.to_set().contains(all@[0]));
            }
        }
        return Ok(all[0]);
    }
    let mut s: String = "snapshot has ".to_owned();
    let n: String = decimal_text(all.len() as u64);
    s.append(n.as_str());
    s.append(
        " distinct PBKDF2 `rounds` values; strict mode requires a single rounds setting across all users (SAFETY_PROOF v3 U4)",
    );
    Err(s)
}

// ----------------------------------------------------------------------------
// Authenticating
// ----------------------------------------------------------------------------

/// The rounds of the dummy for a document that is not mixed.
pub open spec fn dummy_rounds(v: Value, rounds: u32) -> bool {
    if rounds_set(v).len() == 0 {
        rounds == DEFAULT_DUMMY_ROUNDS
    } else {
        rounds_set(v).contains(rounds)
    }
}

/// Whether a document was loaded as it should be: one with different rounds is
/// refused; for any other the dummy has the rounds of the document.
pub open spec fn loads(v: Value, r: Result<JsonAuthenticator<DefaultPasswordVerifier>, String>) -> bool {
    if mixed(v) {
        r matches Err(e) && e@ == mixed_message(rounds_set(v).len())
    } else {
        &&& r matches Ok(a)
        &&& a.snapshot == v
        &&& exists|rounds: u32|
            #[trigger] dummy_rounds(v, rounds) && a.dummy_hash@ == dummy_text(rounds)
    }
}

/// As above, where a document without any rounds is refused too.
pub open spec fn loads_strictly(
    v: Value,
    r: Result<JsonAuthenticator<DefaultPasswordVerifier>, String>,
) -> bool {
    if rounds_set(v).len() == 1 {
        &&& r matches Ok(a)
        &&& a.snapshot == v
        &&& exists|rounds: u32|
            #[trigger] dummy_rounds(v, rounds) && a.dummy_hash@ == dummy_text(rounds)
    } else {
        r matches Err(e) && e@ == strict_message(rounds_set(v).len())
    }
}

impl JsonAuthenticator<DefaultPasswordVerifier> {
    /// Reads a document.
    pub fn from_str(json: &str) -> (r: Result<JsonAuthenticator<DefaultPasswordVerifier>, String>)
        ensures
            match value::document(json@) {
                Ok(v) => loads(v, r),
                Err(e) => r matches Err(s) && s@ == e,
            },
    {
        match parse_document(json) {
            Ok(snapshot) => JsonAuthenticator::with_snapshot(snapshot),
            Err(e) => Err(e),
        }
    }

    /// Reads a document in which all users must have the same rounds.
    pub fn from_str_strict(json: &str) -> (r: Result<
        JsonAuthenticator<DefaultPasswordVerifier>,
        String,
    >)
        ensures
            match value::document(json@) {
                Ok(v) => loads_strictly(v, r),
                Err(e) => r matches Err(s) && s@ == e,
            },
    {
        match parse_document(json) {
            Ok(snapshot) => match detect_uniform_rounds(&snapshot) {
                Ok(rounds) => {
                    assert(dummy_rounds(snapshot, rounds));
                    Ok(
                        JsonAuthenticator {
                            snapshot,
                            verifier: DefaultPasswordVerifier,
                            dummy_hash: build_dummy_phc(rounds),
                        },
                    )
                },
                Err(e) => Err(e),
            },
            Err(e) => Err(e),
        }
    }

    /// Takes a document. Users with other rounds than most could be told from users
    /// that are not there, so a document with different rounds is refused.
    pub fn with_snapshot(snapshot: Value) -> (r: Result<
        JsonAuthenticator<DefaultPasswordVerifier>,
        String,
    >)
        ensures
            loads(snapshot, r),
    {
        let distinct: usize = count_distinct_rounds(&snapshot);
        if distinct > 1 {
            let mut s: String = "JsonAuthenticator: snapshot has ".to_owned();
            let n: String = decimal_text(distinct as u64);
            s.append(n.as_str());
            s.append(
                " distinct PBKDF2 `rounds` values; refusing to load (SAFETY_PROOF v5 \u{a7}7 F2). Re-hash all entries to a single `rounds` setting.",
            );
            return Err(s);
        }
        let rounds: u32 = match detect_modal_rounds(&snapshot) {
            Some(x) => {
                proof {
                    let (all, paths) = choose|all: Seq<u32>, paths: Seq<UserPath>| #[trigger]
                        lists_rounds(all, paths, snapshot) && is_mode(all, x);
                    lemma_rounds_set(all, paths, snapshot);
                    assert(rounds_set(snapshot).contains(x));
                }
                x
            },
            None => {
                proof {
                    assert(rounds_set(snapshot) =~= Set::<u32>::empty());
                }
                DEFAULT_DUMMY_ROUNDS
            },
        };
        assert(dummy_rounds(snapshot, rounds));
        Ok(
            JsonAuthenticator {
                snapshot,
                verifier: DefaultPasswordVerifier,
                dummy_hash: build_dummy_phc(rounds),
            },
        )
    }
}

/// The hash that a client is checked against: that of its user, or the dummy.
pub open spec fn hash_to_check<V>(
    a: JsonAuthenticator<V>,
    tenant: Option<Seq<char>>,
    username: Option<Seq<char>>,
) -> Seq<char> {
    match username {
        Some(u) => match stored_hash(a.snapshot, tenant, u) {
            Some(h) => h,
            None => a.dummy_hash@,
        },
        None => a.dummy_hash@,
    }
}

/// The bytes that are checked: the password, or none.
pub open spec fn bytes_to_check(password: Option<Seq<u8>>) -> Seq<u8> {
    match password {
        Some(p) => p,
        None => Seq::empty(),
    }
}

pub open spec fn known<V>(
    a: JsonAuthenticator<V>,
    tenant: Option<Seq<char>>,
    username: Option<Seq<char>>,
) -> bool {
    username is Some && stored_hash(a.snapshot, tenant, username->0) is Some
}

/// What comes of a check: a client is accepted only if its user is there, it gave a
/// password, and the password matched.
pub open spec fn outcome(hash_ok: bool, user_exists: bool, has_password: bool) -> AuthResult {
    if hash_ok && user_exists && has_password {
        AuthResult { accepted: true, return_code: ConnackReturnCode::Accepted }
    } else {
        AuthResult { accepted: false, return_code: ConnackReturnCode::BadUsernameOrPassword }
    }
}

/// What comes of a check.
pub fn decide(hash_ok: bool, user_exists: bool, has_password: bool) -> (r: AuthResult)
    ensures
        r == outcome(hash_ok, user_exists, has_password),
{
    if hash_ok && user_exists && has_password {
        AuthResult::accept()
    } else {
        AuthResult::reject(ConnackReturnCode::BadUsernameOrPassword)
    }
}

fn opt_str<'a>(a: Option<&'a Arc<str>>) -> (r: Option<&'a str>)
    ensures
        value::opt_text(r) == text::opt_ref_chars(a),
{
    match a {
        Some(x) => Some(x),
        None => None,
    }
}

impl<V: PasswordVerifier> JsonAuthenticator<V> {
    /// The same users with another verifier.
    pub fn with_verifier<W: PasswordVerifier>(self, verifier: W) -> (r: JsonAuthenticator<W>)
        ensures
            r.snapshot == self.snapshot,
            r.verifier == verifier,
            r.dummy_hash == self.dummy_hash,
    {
        JsonAuthenticator { snapshot: self.snapshot, verifier, dummy_hash: self.dummy_hash }
    }

    /// The same users with a dummy of this many rounds.
    pub fn with_dummy_rounds(self, rounds: u32) -> (r: JsonAuthenticator<V>)
        ensures
            r.snapshot == self.snapshot,
            r.verifier == self.verifier,
            r.dummy_hash@ == dummy_text(rounds),
    {
        JsonAuthenticator {
            snapshot: self.snapshot,
            verifier: self.verifier,
            dummy_hash: build_dummy_phc(rounds),
        }
    }

    /// The hash of a user.
    fn lookup_hash<'a>(&'a self, tenant: Option<&TenantId>, username: &str) -> (r: Option<&'a str>)
        ensures
            value::opt_text(r) == stored_hash(
                self.snapshot,
                text::opt_ref_chars(tenant),
                username@,
            ),
    {
        match find_user(&self.snapshot, opt_str(tenant), username) {
            Some(user) => match get(user, "password") {
                Some(p) => as_text(p),
                None => None,
            },
            None => None,
        }
    }
}

impl<V: PasswordVerifier> Authenticator for JsonAuthenticator<V> {
    fn authenticate(
        &self,
        tenant: Option<&TenantId>,
        connect: &ConnectPacket,
        _remote_addr: Option<SocketAddress>,
    ) -> (r: AuthResult)
        ensures
            exists|hash: &str, password: &[u8], ok: bool|
                {
                    &&& #[trigger] call_ensures(V::verify, (&self.verifier, hash, password), ok)
                    &&& hash@ == hash_to_check(
                        *self,
                        text::opt_ref_chars(tenant),
                        connect@.username,
                    )
                    &&& password@ == bytes_to_check(connect@.password)
                    &&& r == outcome(
                        ok,
                        known(*self, text::opt_ref_chars(tenant), connect@.username),
                        connect@.password is Some,
                    )
                },
    {
        let found: Option<&str> = match &connect.username {
            Some(u) => self.lookup_hash(tenant, u),
            None => None,
        };
        let hash: &str = match found {
            Some(h) => h,
            None => self.dummy_hash.as_str(),
        };
        let empty: Vec<u8> = Vec::new();
        let password: &[u8] = match &connect.password {
            Some(p) => p.as_slice(),
            None => empty.as_slice(),
        };
        assert(password@ =~= bytes_to_check(connect@.password));
        let ok: bool = self.verifier.verify(hash, password);
        decide(ok, found.is_some(), connect.password.is_some())
    }
}

// ----------------------------------------------------------------------------
// Laws
// ----------------------------------------------------------------------------

/// A client that is not known, gave no name or gave no password is refused whatever
/// the verifier says, and with the same code as one with a wrong password.
pub proof fn law_refusals_look_alike(hash_ok: bool, user_exists: bool, has_password: bool)
    ensures
        outcome(hash_ok, user_exists, has_password).accepted <==> hash_ok && user_exists
            && has_password,
        !outcome(hash_ok, user_exists, has_password).accepted ==> outcome(
            hash_ok,
            user_exists,
            has_password,
        ) == outcome(false, true, true),
{
}

/// What one tenant's users are does not show in another's: two documents with the
/// same users for a tenant hold the same hashes for it.
pub proof fn law_users_are_scoped(
    a: Value,
    b: Value,
    tenant: Option<Seq<char>>,
    name: Seq<char>,
)
    requires
        value::users_of(a, tenant) == value::users_of(b, tenant),
    ensures
        stored_hash(a, tenant, name) == stored_hash(b, tenant, name),
{
}

/// The hash that is stored for a user is the text under `password` in what the document
/// has under the user's name; a user without such a text, and one that is not there,
/// has none.
pub proof fn law_stored_hash(
    v: Value,
    tenant: Option<Seq<char>>,
    name: Seq<char>,
    users: Map<Seq<char>, Value>,
)
    requires
        acl::has_users(v, tenant, users),
    ensures
        !users.contains_key(name) ==> stored_hash(v, tenant, name) is None,
        users.contains_key(name) ==> match value::dict_of(users[name]) {
            Some(user) => if user.contains_key("password"@) {
                stored_hash(v, tenant, name) == value::text_of(user["password"@])
            } else {
                stored_hash(v, tenant, name) is None
            },
            None => stored_hash(v, tenant, name) is None,
        },
{
}

/// What is checked for a client: against the hash that is stored for its user, and
/// where there is none, or no user was named, against the one that stands in for it; a
/// password that is missing counts as empty. The client is accepted only where a user
/// with a stored hash was named, a password was given and the check succeeded, and
/// every refusal is the same.
pub proof fn law_what_is_checked<V>(
    a: JsonAuthenticator<V>,
    tenant: Option<Seq<char>>,
    username: Option<Seq<char>>,
    password: Option<Seq<u8>>,
    ok: bool,
)
    ensures
        username is None ==> hash_to_check(a, tenant, username) == a.dummy_hash@ && !known(
            a,
            tenant,
            username,
        ),
        username matches Some(u) ==> {
            &&& stored_hash(a.snapshot, tenant, u) matches Some(h) ==> hash_to_check(
                a,
                tenant,
                username,
            ) == h && known(a, tenant, username)
            &&& stored_hash(a.snapshot, tenant, u) is None ==> hash_to_check(a, tenant, username)
                == a.dummy_hash@ && !known(a, tenant, username)
        },
        password matches Some(p) ==> bytes_to_check(password) == p,
        password is None ==> bytes_to_check(password).len() == 0,
        outcome(ok, known(a, tenant, username), password is Some).accepted <==> ok && username is Some
            && stored_hash(a.snapshot, tenant, username->0) is Some && password is Some,
        outcome(ok, known(a, tenant, username), password is Some).accepted ==> outcome(
            ok,
            known(a, tenant, username),
            password is Some,
        ).return_code is Accepted,
        !outcome(ok, known(a, tenant, username), password is Some).accepted ==> outcome(
            ok,
            known(a, tenant, username),
            password is Some,
        ).return_code is BadUsernameOrPassword,
{
}

/// A document whose users have different numbers of rounds is not loaded.
pub proof fn law_mixed_rounds_are_refused(
    v: Value,
    r: Result<JsonAuthenticator<DefaultPasswordVerifier>, String>,
    p: UserPath,
    q: UserPath,
)
    requires
        rounds_set(v).finite(),
        rounds_at(v, p) is Some,
        rounds_at(v, q) is Some,
        rounds_at(v, p) != rounds_at(v, q),
    ensures
        loads(v, r) ==> r is Err,
        loads_strictly(v, r) ==> r is Err,
{
    let s = rounds_set(v);
    let a = rounds_at(v, p)->0;
    let b = rounds_at(v, q)->0;
    assert(s.contains(a) && s.contains(b));
    assert(s.remove(a).contains(b));
    assert(s.remove(a).len() > 0) by {
        if s.remove(a).len() == 0 {
            assert(s.remove(a) =~= Set::<u32>::empty());
        }
    }
}

/// A document whose users all have one number of rounds is loaded as it is, strictly or
/// not, and the hash that stands in for a user has that number.
pub proof fn law_uniform_rounds_are_taken(
    v: Value,
    r: Result<JsonAuthenticator<DefaultPasswordVerifier>, String>,
    p: UserPath,
    x: u32,
)
    requires
        rounds_at(v, p) == Some(x),
        forall|q: UserPath| #[trigger] rounds_at(v, q) is Some ==> rounds_at(v, q) == Some(x),
        loads(v, r) || loads_strictly(v, r),
    ensures
        r matches Ok(a) && a.snapshot == v && a.dummy_hash@ == dummy_text(x),
{
    let s = rounds_set(v);
    assert(s =~= set![x]) by {
        assert forall|y: u32| s.contains(y) <==> y == x by {
            if s.contains(y) {
                let q = choose|q: UserPath| #[trigger] rounds_at(v, q) == Some(y);
                assert(rounds_at(v, q) is Some);
            }
        }
    }
    assert(set![x].len() == 1);
}

/// A document without such users is loaded with 10 000 rounds for the hash that stands
/// in for a user, but not strictly.
pub proof fn law_no_rounds(
    v: Value,
    r: Result<JsonAuthenticator<DefaultPasswordVerifier>, String>,
)
    requires
        forall|q: UserPath| #[trigger] rounds_at(v, q) is None,
    ensures
        loads(v, r) ==> (r matches Ok(a) && a.snapshot == v && a.dummy_hash@ == dummy_text(10_000)),
        loads_strictly(v, r) ==> r is Err,
{
    assert(rounds_set(v) =~= Set::<u32>::empty());
}

/// The rounds of a user are those of its hash, where that is one of PBKDF2.
pub proof fn law_rounds_of_a_user(v: Value, p: UserPath)
    ensures
        match stored_hash(v, p.0, p.1) {
            Some(h) => match password::parsed(h) {
                Some(password::HashModel::Pbkdf2Sha512 { rounds, .. }) => rounds_at(v, p) == Some(
                    rounds,
                ),
                _ => rounds_at(v, p) is None,
            },
            None => rounds_at(v, p) is None,
        },
{
}

} // verus!
