//! Pseudonymous interaction linkage: an ephemeral interaction identifier is
//! bound to its owning case for a fixed seven-day time-to-live, and a set of
//! identifiers resolves to the distinct owners still linked. A missing
//! binding and an expired one are indistinguishable by design: both read as
//! absent, so nothing leaks about whether an identifier was ever linked.

use vstd::prelude::*;

verus! {

use crate::keys::case_key_spec;
use crate::kv::{vec_contains_str, KvStore};
use crate::symptom_log;
use crate::symptom_log::{log_decodes, log_wf};
use crate::DataError;

/// Time-to-live of an interaction link: seven days, in seconds.
pub const LINK_TTL_SECS: u64 = 604800;

/// The owner an interaction id resolves to at instant `now`: the last owner
/// set for it, unless the binding has expired or was never made.
pub open spec fn resolved_owner(store: KvStore, id: Seq<char>, now: u64) -> Option<Seq<char>> {
    match store.str_at(id) {
        Some(p) => if now < p.1 {
            Some(p.0)
        } else {
            None
        },
        None => None,
    }
}

/// Binds every given interaction id to `owner_id` at instant `now`, each
/// with the seven-day time-to-live. Re-linking an id overwrites its owner
/// and resets the clock. Nothing else in the store changes.
pub fn link(store: &mut KvStore, interaction_ids: &Vec<String>, owner_id: &String, now: u64)
    requires
        now + LINK_TTL_SECS <= u64::MAX,
    ensures
        forall|i: int|
            0 <= i < interaction_ids@.len() ==> final(store).str_at(#[trigger] interaction_ids@[i]@)
                == Some((owner_id@, (now + LINK_TTL_SECS) as u64)),
        forall|k: Seq<char>|
            (forall|i: int| 0 <= i < interaction_ids@.len() ==> #[trigger] interaction_ids@[i]@ != k)
                ==> final(store).str_at(k) == old(store).str_at(k),
        forall|k: Seq<char>| final(store).list_at(k) == old(store).list_at(k),
        forall|k: Seq<char>| final(store).set_at(k) == old(store).set_at(k),
{
    let expires_at = now + LINK_TTL_SECS;
    let mut i: usize = 0;
    while i < interaction_ids.len()
        invariant
            i <= interaction_ids@.len(),
            expires_at == now + LINK_TTL_SECS,
            forall|j: int|
                0 <= j < i ==> store.str_at(#[trigger] interaction_ids@[j]@) == Some(
                    (owner_id@, expires_at),
                ),
            forall|k: Seq<char>|
                (forall|j: int| 0 <= j < i ==> #[trigger] interaction_ids@[j]@ != k)
                    ==> store.str_at(k) == old(store).str_at(k),
            forall|k: Seq<char>| store.list_at(k) == old(store).list_at(k),
            forall|k: Seq<char>| store.set_at(k) == old(store).set_at(k),
        decreases interaction_ids@.len() - i,
    {
        store.set_ex(interaction_ids[i].clone(), owner_id.clone(), expires_at);
        i = i + 1;
    }
}

/// Resolves one interaction id at instant `now`. Absent means unlinked or
/// expired, indistinguishable by design.
pub fn resolve_owner(store: &KvStore, interaction_id: &String, now: u64) -> (r: Option<String>)
    ensures
        match resolved_owner(*store, interaction_id@, now) {
            Some(o) => r matches Some(v) && v@ == o,
            None => r is None,
        },
{
    store.get(interaction_id, now)
}

/// A link is visible exactly inside its time-to-live window: absent before
/// any binding exists, present with the bound owner from the link instant
/// until seven days have passed, and absent strictly after.
pub proof fn lemma_resolve_window(
    store: KvStore,
    id: Seq<char>,
    owner: Seq<char>,
    t_link: u64,
    t_query: u64,
)
    requires
        t_link + LINK_TTL_SECS <= u64::MAX,
    ensures
        store.str_at(id) is None ==> resolved_owner(store, id, t_query) is None,
        store.str_at(id) == Some((owner, (t_link + LINK_TTL_SECS) as u64)) && t_link <= t_query
            < t_link + LINK_TTL_SECS ==> resolved_owner(store, id, t_query) == Some(owner),
        store.str_at(id) == Some((owner, (t_link + LINK_TTL_SECS) as u64)) && t_query > t_link
            + LINK_TTL_SECS ==> resolved_owner(store, id, t_query) is None,
{
}

/// The distinct owners that a sequence of interaction ids resolves to at
/// instant `now`.
pub open spec fn owners_of(store: KvStore, ids: Seq<Seq<char>>, now: u64) -> Set<Seq<char>>
    decreases ids.len(),
{
    if ids.len() == 0 {
        Set::empty()
    } else {
        let rest = owners_of(store, ids.drop_last(), now);
        match resolved_owner(store, ids.last(), now) {
            Some(o) => rest.insert(o),
            None => rest,
        }
    }
}

/// Resolving a list that repeats an interaction id gives the same owners as
/// resolving the list without the repetition: each owner appears once,
/// however many ids point at it.
pub proof fn lemma_owners_of_duplicate(store: KvStore, ids: Seq<Seq<char>>, d: Seq<char>, now: u64)
    requires
        ids.contains(d),
    ensures
        owners_of(store, ids.push(d), now) == owners_of(store, ids, now),
    decreases ids.len(),
{
    let j = choose|j: int| 0 <= j < ids.len() && ids[j] == d;
    lemma_owner_of_member(store, ids, j, now);
    assert(ids.push(d).drop_last() =~= ids);
    match resolved_owner(store, d, now) {
        Some(o) => {
            assert(owners_of(store, ids, now).contains(o));
            assert(owners_of(store, ids, now).insert(o) =~= owners_of(store, ids, now));
        },
        None => {},
    }
}

/// If `ids[j]` resolves to an owner, that owner is in the resolved set.
proof fn lemma_owner_of_member(store: KvStore, ids: Seq<Seq<char>>, j: int, now: u64)
    requires
        0 <= j < ids.len(),
    ensures
        resolved_owner(store, ids[j], now) matches Some(o) ==> owners_of(store, ids, now).contains(
            o,
        ),
    decreases ids.len(),
{
    if j < ids.len() - 1 {
        lemma_owner_of_member(store, ids.drop_last(), j, now);
    }
}

/// Resolves a batch of interaction ids to the distinct owners still linked
/// at instant `now`: ids that are unlinked or expired contribute nothing,
/// and an owner that several ids point at is returned exactly once.
pub fn resolve_owners(store: &KvStore, interaction_ids: &Vec<String>, now: u64) -> (r: Vec<String>)
    ensures
        forall|i: int, j: int| 0 <= i < j < r@.len() ==> r@[i]@ != r@[j]@,
        forall|i: int|
            0 <= i < r@.len() ==> owners_of(
                *store,
                symptom_log::views_of(interaction_ids@),
                now,
            ).contains(#[trigger] r@[i]@),
        forall|m: Seq<char>|
            owners_of(*store, symptom_log::views_of(interaction_ids@), now).contains(m)
                ==> exists|i: int| 0 <= i < r@.len() && r@[i]@ == m,
{
    let mut out: Vec<String> = Vec::new();
    let mut i: usize = 0;
    while i < interaction_ids.len()
        invariant
            i <= interaction_ids@.len(),
            forall|a: int, b: int| 0 <= a < b < out@.len() ==> out@[a]@ != out@[b]@,
            forall|a: int|
                0 <= a < out@.len() ==> owners_of(
                    *store,
                    symptom_log::views_of(interaction_ids@.subrange(0, i as int)),
                    now,
                ).contains(#[trigger] out@[a]@),
            forall|m: Seq<char>|
                owners_of(
                    *store,
                    symptom_log::views_of(interaction_ids@.subrange(0, i as int)),
                    now,
                ).contains(m) ==> exists|a: int| 0 <= a < out@.len() && out@[a]@ == m,
        decreases interaction_ids@.len() - i,
    {
        let ghost pre_ids = symptom_log::views_of(interaction_ids@.subrange(0, i as int));
        let ghost cur_ids = symptom_log::views_of(interaction_ids@.subrange(0, i + 1));
        proof {
            assert(cur_ids.drop_last() =~= pre_ids);
            assert(cur_ids.last() == interaction_ids@[i as int]@);
        }
        let ghost pre_out = out@;
        match resolve_owner(store, &interaction_ids[i], now) {
            Some(owner) => {
                let present = vec_contains_str(&out, &owner);
                if !present {
                    out.push(owner);
                }
                proof {
                    assert forall|m: Seq<char>| owners_of(*store, cur_ids, now).contains(
                        m,
                    ) implies exists|a: int| 0 <= a < out@.len() && out@[a]@ == m by {
                        if owners_of(*store, pre_ids, now).contains(m) {
                            let a = choose|a: int|
                                0 <= a < pre_out.len() && pre_out[a]@ == m;
                            assert(out@[a]@ == m);
                        } else {
                            if present {
                                let a = choose|a: int|
                                    0 <= a < pre_out.len() && pre_out[a]@ == owner@;
                                assert(out@[a]@ == m);
                            } else {
                                assert(out@[out@.len() - 1]@ == m);
                            }
                        }
                    }
                }
            },
            None => {
                proof {
                    assert(owners_of(*store, cur_ids, now) == owners_of(*store, pre_ids, now));
                    assert forall|m: Seq<char>| owners_of(*store, cur_ids, now).contains(
                        m,
                    ) implies exists|a: int| 0 <= a < out@.len() && out@[a]@ == m by {
                        let a = choose|a: int| 0 <= a < pre_out.len() && pre_out[a]@ == m;
                        assert(out@[a]@ == m);
                    }
                }
            },
        }
        i = i + 1;
    }
    proof {
        assert(interaction_ids@.subrange(0, interaction_ids@.len() as int) =~= interaction_ids@);
    }
    out
}

/// Fetches the full symptom log of each owner, one log per owner in the
/// given order. Fails on the first owner whose stored log is corrupt.
pub fn fetch_symptom_logs(store: &KvStore, owner_ids: &Vec<String>) -> (r: Result<
    Vec<Vec<(u64, String)>>,
    DataError,
>)
    ensures
        match r {
            Ok(logs) => logs@.len() == owner_ids@.len() && forall|i: int|
                0 <= i < logs@.len() ==> log_wf(
                    store.list_at(case_key_spec(#[trigger] owner_ids@[i]@)),
                ) && log_decodes(store.list_at(case_key_spec(owner_ids@[i]@)), logs@[i]@),
            Err(_) => exists|i: int|
                0 <= i < owner_ids@.len() && !log_wf(
                    store.list_at(case_key_spec(#[trigger] owner_ids@[i]@)),
                ),
        },
{
    let mut out: Vec<Vec<(u64, String)>> = Vec::new();
    let mut i: usize = 0;
    while i < owner_ids.len()
        invariant
            i <= owner_ids@.len(),
            out@.len() == i,
            forall|j: int|
                0 <= j < i ==> log_wf(store.list_at(case_key_spec(#[trigger] owner_ids@[j]@)))
                    && log_decodes(store.list_at(case_key_spec(owner_ids@[j]@)), out@[j]@),
        decreases owner_ids@.len() - i,
    {
        match symptom_log::read(store, &owner_ids[i]) {
            Ok(entries) => {
                out.push(entries);
            },
            Err(e) => {
                return Err(e);
            },
        }
        i = i + 1;
    }
    Ok(out)
}

} // verus!
