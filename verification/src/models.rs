//! The hit log and the funnel statistics computed from it.
//!
//! A visitor is known only by the digest of their network address. The member
//! at which a visitor entered the ring is the slug of their first recorded
//! hit: the one with the lowest row identifier, and among hits with equal
//! identifiers the one that stands first in the log.

use vstd::prelude::*;
use crate::counting::{count_in, lemma_count_in_push, lemma_count_is_cardinality};

verus! {

/// One recorded visit, as read back from the store.
#[derive(Clone, Debug)]
pub struct Hit {
    /// Row identifier; rows are numbered in the order of their insertion.
    pub id: i32,
    /// Digest of the visitor's network address.
    pub ip_hash: Vec<u8>,
    /// The member that was visited.
    pub slug: String,
    /// Time of the visit, in microseconds since the Unix epoch (UTC).
    pub timestamp: i64,
}

/// One visit that is about to be appended to the store.
#[derive(Debug)]
pub struct NewHit<'a> {
    pub slug: &'a str,
    pub ip_hash: &'a [u8],
    /// Time of the visit, in microseconds since the Unix epoch (UTC).
    pub timestamp: i64,
}

/// Funnel statistics of one member.
#[derive(Debug, Clone)]
pub struct SiteStats {
    pub slug: String,
    pub first_visit_users: i32,
    pub returning_users: i32,
    pub total_unique_visitors: i32,
    pub driven_to_others: i32,
}

/// Why a log gives no statistics.
#[derive(Debug, Clone, Copy)]
pub enum StatsError {
    /// The log has more distinct visitors than a count can hold.
    TooManyVisitors,
}

/// Mathematical model of a [`Hit`].
pub struct Visit {
    pub id: int,
    pub visitor: Seq<u8>,
    pub slug: Seq<char>,
    pub timestamp: int,
}

/// Mathematical model of a [`SiteStats`].
pub struct Tally {
    pub slug: Seq<char>,
    pub first_visit_users: int,
    pub returning_users: int,
    pub total_unique_visitors: int,
    pub driven_to_others: int,
}

impl View for Hit {
    type V = Visit;

    open spec fn view(&self) -> Visit {
        Visit {
            id: self.id as int,
            visitor: self.ip_hash@,
            slug: self.slug@,
            timestamp: self.timestamp as int,
        }
    }
}

impl View for SiteStats {
    type V = Tally;

    open spec fn view(&self) -> Tally {
        Tally {
            slug: self.slug@,
            first_visit_users: self.first_visit_users as int,
            returning_users: self.returning_users as int,
            total_unique_visitors: self.total_unique_visitors as int,
            driven_to_others: self.driven_to_others as int,
        }
    }
}

/// The log that a vector of hits stands for.
pub open spec fn log_of(hits: Seq<Hit>) -> Seq<Visit> {
    hits.map_values(|hit: Hit| hit@)
}

/// The statistics that a vector of records stands for.
pub open spec fn tallies_of(stats: Seq<SiteStats>) -> Seq<Tally> {
    stats.map_values(|record: SiteStats| record@)
}

/// The record of a member that nobody visited.
pub open spec fn empty_tally(slug: Seq<char>) -> Tally {
    Tally {
        slug,
        first_visit_users: 0,
        returning_users: 0,
        total_unique_visitors: 0,
        driven_to_others: 0,
    }
}

/// `visitor` has a hit at `slug`.
pub open spec fn visited(log: Seq<Visit>, visitor: Seq<u8>, slug: Seq<char>) -> bool {
    exists|i: int|
        0 <= i < log.len() && (#[trigger] log[i]).visitor == visitor && log[i].slug == slug
}

/// `slug` has a hit.
pub open spec fn has_hit(log: Seq<Visit>, slug: Seq<char>) -> bool {
    exists|i: int| 0 <= i < log.len() && (#[trigger] log[i]).slug == slug
}

/// Some record of `tallies` is that of `slug`.
pub open spec fn has_record(tallies: Seq<Tally>, slug: Seq<char>) -> bool {
    exists|k: int| 0 <= k < tallies.len() && (#[trigger] tallies[k]).slug == slug
}

/// Everybody who has a hit in the log.
pub open spec fn visitors(log: Seq<Visit>) -> Set<Seq<u8>> {
    Set::new(
        |visitor: Seq<u8>|
            exists|i: int| 0 <= i < log.len() && (#[trigger] log[i]).visitor == visitor,
    )
}

/// Every member that `visitor` has a hit at.
pub open spec fn slugs_seen_by(log: Seq<Visit>, visitor: Seq<u8>) -> Set<Seq<char>> {
    Set::new(|slug: Seq<char>| visited(log, visitor, slug))
}

/// The number of distinct members that `visitor` went to.
pub open spec fn breadth(log: Seq<Visit>, visitor: Seq<u8>) -> nat {
    slugs_seen_by(log, visitor).len()
}

/// Hit `i` was recorded no later than hit `j`.
pub open spec fn recorded_before(log: Seq<Visit>, i: int, j: int) -> bool {
    log[i].id < log[j].id || (log[i].id == log[j].id && i <= j)
}

/// Hit `i` is the first hit of its visitor.
pub open spec fn is_entry(log: Seq<Visit>, i: int) -> bool {
    &&& 0 <= i < log.len()
    &&& forall|j: int|
        0 <= j < log.len() && (#[trigger] log[j]).visitor == log[i].visitor ==> recorded_before(
            log,
            i,
            j,
        )
}

/// Index of the first hit of `visitor`.
pub open spec fn entry_of(log: Seq<Visit>, visitor: Seq<u8>) -> int {
    choose|i: int| is_entry(log, i) && log[i].visitor == visitor
}

/// The member at which `visitor` entered the ring.
pub open spec fn entry_slug(log: Seq<Visit>, visitor: Seq<u8>) -> Seq<char> {
    log[entry_of(log, visitor)].slug
}

/// Everybody who has a hit at `slug`.
pub open spec fn audience(log: Seq<Visit>, slug: Seq<char>) -> Set<Seq<u8>> {
    visitors(log).filter(|visitor: Seq<u8>| visited(log, visitor, slug))
}

/// Everybody who entered the ring at `slug`.
pub open spec fn entered_at(log: Seq<Visit>, slug: Seq<char>) -> Set<Seq<u8>> {
    visitors(log).filter(|visitor: Seq<u8>| entry_slug(log, visitor) == slug)
}

/// Everybody who came to `slug` after entering the ring elsewhere.
pub open spec fn arrived_at(log: Seq<Visit>, slug: Seq<char>) -> Set<Seq<u8>> {
    audience(log, slug).filter(|visitor: Seq<u8>| entry_slug(log, visitor) != slug)
}

/// Everybody who entered at `slug` and went on to another member.
pub open spec fn sent_on_from(log: Seq<Visit>, slug: Seq<char>) -> Set<Seq<u8>> {
    entered_at(log, slug).filter(|visitor: Seq<u8>| breadth(log, visitor) > 1)
}

/// The statistics of `slug`.
pub open spec fn tally(log: Seq<Visit>, slug: Seq<char>) -> Tally {
    Tally {
        slug,
        first_visit_users: entered_at(log, slug).len() as int,
        returning_users: arrived_at(log, slug).len() as int,
        total_unique_visitors: audience(log, slug).len() as int,
        driven_to_others: sent_on_from(log, slug).len() as int,
    }
}

/// The members that have a hit, each once, in the order in which they first
/// appear in the log.
pub open spec fn slugs_in_order(log: Seq<Visit>) -> Seq<Seq<char>>
    decreases log.len(),
{
    if log.len() == 0 {
        Seq::empty()
    } else {
        let earlier = slugs_in_order(log.drop_last());
        if earlier.contains(log.last().slug) {
            earlier
        } else {
            earlier.push(log.last().slug)
        }
    }
}

/// The statistics of a log: one record for each member that has a hit.
pub open spec fn stats_of(log: Seq<Visit>) -> Seq<Tally> {
    slugs_in_order(log).map_values(|slug: Seq<char>| tally(log, slug))
}

/// Sum of the `first_visit_users` of a list of records.
pub open spec fn first_visit_total(tallies: Seq<Tally>) -> int
    decreases tallies.len(),
{
    if tallies.len() == 0 {
        0
    } else {
        first_visit_total(tallies.drop_last()) + tallies.last().first_visit_users
    }
}

/// What one pass over the log learns of one visitor.
struct Profile {
    /// The first position in the log at which the visitor appears.
    first_hit: usize,
    /// The position of the visitor's first recorded hit.
    entry: usize,
    /// Whether the visitor has hits at more than one member.
    wide: bool,
}

/// `profile` sums up the hits of its visitor among the first `upto` hits.
spec fn profile_fits(log: Seq<Visit>, profile: Profile, upto: int) -> bool {
    let visitor = log[profile.first_hit as int].visitor;
    &&& 0 <= profile.first_hit < upto
    &&& 0 <= profile.entry < upto
    &&& log[profile.entry as int].visitor == visitor
    &&& forall|j: int|
        0 <= j < upto && (#[trigger] log[j]).visitor == visitor ==> recorded_before(
            log,
            profile.entry as int,
            j,
        )
    &&& profile.wide <==> exists|j: int|
        0 <= j < upto && (#[trigger] log[j]).visitor == visitor && log[j].slug
            != log[profile.first_hit as int].slug
}

/// `profiles` holds one fitting profile for each visitor among the first
/// `upto` hits, and `owner` maps each of these hits to its visitor's profile.
spec fn profiled(log: Seq<Visit>, profiles: Seq<Profile>, owner: Seq<usize>, upto: int) -> bool {
    &&& 0 <= upto <= log.len()
    &&& owner.len() == upto
    &&& forall|k: int| 0 <= k < profiles.len() ==> profile_fits(log, #[trigger] profiles[k], upto)
    &&& forall|a: int, b: int|
        0 <= a < b < profiles.len() ==> log[(#[trigger] profiles[a]).first_hit as int].visitor
            != log[(#[trigger] profiles[b]).first_hit as int].visitor
    &&& forall|j: int|
        0 <= j < upto ==> 0 <= #[trigger] owner[j] < profiles.len()
            && log[profiles[owner[j] as int].first_hit as int].visitor == log[j].visitor
}

/// Tests two digests for equality.
fn same_bytes(a: &Vec<u8>, b: &Vec<u8>) -> (same: bool)
    ensures
        same == (a@ == b@),
{
    if a.len() != b.len() {
        return false;
    }
    let mut k: usize = 0;
    while k < a.len()
        invariant
            a.len() == b.len(),
            k <= a.len(),
            forall|j: int| 0 <= j < k ==> a@[j] == b@[j],
        decreases a.len() - k,
    {
        if a[k] != b[k] {
            return false;
        }
        k += 1;
    }
    assert(a@ =~= b@);
    true
}

/// Looks for the profile of the visitor of hit `at`.
fn find_profile(hits: &Vec<Hit>, profiles: &Vec<Profile>, at: usize) -> (found: Option<usize>)
    requires
        at < hits.len(),
        forall|k: int| 0 <= k < profiles.len() ==> (#[trigger] profiles[k]).first_hit < hits.len(),
    ensures
        match found {
            Some(k) => k < profiles.len() && hits[profiles[k as int].first_hit as int].ip_hash@
                == hits[at as int].ip_hash@,
            None => forall|k: int|
                0 <= k < profiles.len() ==> hits[(#[trigger] profiles[k]).first_hit as int].ip_hash@
                    != hits[at as int].ip_hash@,
        },
{
    let mut k: usize = 0;
    while k < profiles.len()
        invariant
            at < hits.len(),
            k <= profiles.len(),
            forall|k: int|
                0 <= k < profiles.len() ==> (#[trigger] profiles[k]).first_hit < hits.len(),
            forall|j: int|
                0 <= j < k ==> hits[(#[trigger] profiles[j]).first_hit as int].ip_hash@
                    != hits[at as int].ip_hash@,
        decreases profiles.len() - k,
    {
        if same_bytes(&hits[profiles[k].first_hit].ip_hash, &hits[at].ip_hash) {
            return Some(k);
        }
        k += 1;
    }
    None
}

/// A visitor who is new at hit `upto` gets a profile of their own.
proof fn lemma_profile_added(
    log: Seq<Visit>,
    profiles: Seq<Profile>,
    owner: Seq<usize>,
    upto: int,
)
    requires
        profiled(log, profiles, owner, upto),
        upto < log.len(),
        upto <= usize::MAX,
        profiles.len() <= usize::MAX,
        forall|k: int|
            0 <= k < profiles.len() ==> log[(#[trigger] profiles[k]).first_hit as int].visitor
                != log[upto].visitor,
    ensures
        profiled(
            log,
            profiles.push(Profile { first_hit: upto as usize, entry: upto as usize, wide: false }),
            owner.push(profiles.len() as usize),
            upto + 1,
        ),
{
    let fresh = Profile { first_hit: upto as usize, entry: upto as usize, wide: false };
    let grown = profiles.push(fresh);
    let mapped = owner.push(profiles.len() as usize);
    assert forall|j: int| 0 <= j < upto implies log[j].visitor != log[upto].visitor by {
        assert(log[profiles[owner[j] as int].first_hit as int].visitor == log[j].visitor);
    }
    assert forall|k: int| 0 <= k < grown.len() implies profile_fits(
        log,
        #[trigger] grown[k],
        upto + 1,
    ) by {
        if k < profiles.len() {
            assert(profile_fits(log, profiles[k], upto));
        }
    }
    assert forall|j: int| 0 <= j < upto + 1 implies 0 <= #[trigger] mapped[j] < grown.len()
        && log[grown[mapped[j] as int].first_hit as int].visitor == log[j].visitor by {
        if j < upto {
            assert(mapped[j] == owner[j]);
        }
    }
}

/// A visitor who is known at hit `upto` has their profile brought up to date.
proof fn lemma_profile_updated(
    log: Seq<Visit>,
    profiles: Seq<Profile>,
    owner: Seq<usize>,
    upto: int,
    k: int,
)
    requires
        profiled(log, profiles, owner, upto),
        upto < log.len(),
        upto <= usize::MAX,
        0 <= k < profiles.len() <= usize::MAX,
        log[profiles[k].first_hit as int].visitor == log[upto].visitor,
    ensures
        profiled(
            log,
            profiles.update(
                k,
                Profile {
                    first_hit: profiles[k].first_hit,
                    entry: if log[upto].id < log[profiles[k].entry as int].id {
                        upto as usize
                    } else {
                        profiles[k].entry
                    },
                    wide: profiles[k].wide || log[upto].slug != log[profiles[k].first_hit as int].slug,
                },
            ),
            owner.push(k as usize),
            upto + 1,
        ),
{
    let old = profiles[k];
    let fresh = Profile {
        first_hit: old.first_hit,
        entry: if log[upto].id < log[old.entry as int].id {
            upto as usize
        } else {
            old.entry
        },
        wide: old.wide || log[upto].slug != log[old.first_hit as int].slug,
    };
    let changed = profiles.update(k, fresh);
    let mapped = owner.push(k as usize);
    assert(profile_fits(log, old, upto));
    assert(profile_fits(log, fresh, upto + 1)) by {
        let visitor = log[old.first_hit as int].visitor;
        if old.wide {
            let j = choose|j: int|
                0 <= j < upto && (#[trigger] log[j]).visitor == visitor && log[j].slug
                    != log[old.first_hit as int].slug;
            assert(0 <= j < upto + 1 && log[j].visitor == visitor);
        }
        if log[upto].slug != log[old.first_hit as int].slug {
            assert(0 <= upto < upto + 1 && log[upto].visitor == visitor);
        }
    }
    assert forall|i: int| 0 <= i < changed.len() implies profile_fits(
        log,
        #[trigger] changed[i],
        upto + 1,
    ) by {
        if i != k {
            assert(profile_fits(log, profiles[i], upto));
            if i < k {
                assert(log[profiles[i].first_hit as int].visitor != log[profiles[k].first_hit as int].visitor);
            } else {
                assert(log[profiles[k].first_hit as int].visitor != log[profiles[i].first_hit as int].visitor);
            }
        }
    }
    assert forall|a: int, b: int| 0 <= a < b < changed.len() implies log[(
    #[trigger] changed[a]).first_hit as int].visitor != log[(
    #[trigger] changed[b]).first_hit as int].visitor by {
        assert(changed[a].first_hit == profiles[a].first_hit);
        assert(changed[b].first_hit == profiles[b].first_hit);
    }
    assert forall|j: int| 0 <= j < upto + 1 implies 0 <= #[trigger] mapped[j] < changed.len()
        && log[changed[mapped[j] as int].first_hit as int].visitor == log[j].visitor by {
        if j < upto {
            assert(mapped[j] == owner[j]);
            assert(changed[owner[j] as int].first_hit == profiles[owner[j] as int].first_hit);
        } else {
            assert(mapped[j] == k);
            assert(changed[k].first_hit == old.first_hit);
        }
    }
}

/// Reads the log once and sums up each visitor.
fn profile_visitors(hits: &Vec<Hit>) -> (tables: (Vec<Profile>, Vec<usize>))
    ensures
        profiled(log_of(hits@), tables.0@, tables.1@, hits.len() as int),
        tables.0.len() <= hits.len(),
{
    let ghost log = log_of(hits@);
    let mut profiles: Vec<Profile> = Vec::new();
    let mut owner: Vec<usize> = Vec::new();
    let mut at: usize = 0;
    while at < hits.len()
        invariant
            log == log_of(hits@),
            at <= hits.len(),
            profiles.len() <= at,
            profiled(log, profiles@, owner@, at as int),
        decreases hits.len() - at,
    {
        assert forall|k: int| 0 <= k < profiles.len() implies (#[trigger] profiles[k]).first_hit
            < hits.len() by {
            assert(profile_fits(log, profiles@[k], at as int));
        }
        match find_profile(hits, &profiles, at) {
            Some(k) => {
                let known = &profiles[k];
                assert(profile_fits(log, *known, at as int));
                let first_hit = known.first_hit;
                let entry = if hits[at].id < hits[known.entry].id {
                    at
                } else {
                    known.entry
                };
                let wide = known.wide || hits[at].slug != hits[first_hit].slug;
                proof {
                    lemma_profile_updated(log, profiles@, owner@, at as int, k as int);
                }
                profiles.set(k, Profile { first_hit, entry, wide });
                owner.push(k);
            },
            None => {
                proof {
                    lemma_profile_added(log, profiles@, owner@, at as int);
                }
                owner.push(profiles.len());
                profiles.push(Profile { first_hit: at, entry: at, wide: false });
            },
        }
        at += 1;
    }
    (profiles, owner)
}

/// The visitors in the order of their profiles.
spec fn profiled_visitors(log: Seq<Visit>, profiles: Seq<Profile>) -> Seq<Seq<u8>> {
    Seq::new(profiles.len(), |k: int| log[profiles[k].first_hit as int].visitor)
}

/// Profiles of the whole log list every visitor once and say of each where
/// they entered the ring and whether they went to more than one member.
proof fn lemma_profiles_complete(log: Seq<Visit>, profiles: Seq<Profile>, owner: Seq<usize>)
    requires
        profiled(log, profiles, owner, log.len() as int),
    ensures
        profiled_visitors(log, profiles).no_duplicates(),
        profiled_visitors(log, profiles).to_set() == visitors(log),
        forall|k: int|
            0 <= k < profiles.len() ==> entry_slug(log, #[trigger] profiled_visitors(log, profiles)[k])
                == log[profiles[k].entry as int].slug,
        forall|k: int|
            0 <= k < profiles.len() ==> (profiles[k].wide <==> breadth(
                log,
                #[trigger] profiled_visitors(log, profiles)[k],
            ) > 1),
        forall|j: int, k: int|
            0 <= j < log.len() && 0 <= k < profiles.len() ==> (#[trigger] owner[j] == k
                <==> log[j].visitor == #[trigger] profiled_visitors(log, profiles)[k]),
{
    let listed = profiled_visitors(log, profiles);
    assert forall|a: int, b: int| 0 <= a < listed.len() && 0 <= b < listed.len() && a != b implies listed[a]
        != listed[b] by {
        if a < b {
            assert(log[profiles[a].first_hit as int].visitor != log[profiles[b].first_hit as int].visitor);
        } else {
            assert(log[profiles[b].first_hit as int].visitor != log[profiles[a].first_hit as int].visitor);
        }
    }
    assert forall|visitor: Seq<u8>| listed.to_set().contains(visitor) <==> visitors(log).contains(
        visitor,
    ) by {
        if listed.contains(visitor) {
            let k = choose|k: int| 0 <= k < listed.len() && listed[k] == visitor;
            assert(profile_fits(log, profiles[k], log.len() as int));
            assert(log[profiles[k].first_hit as int].visitor == visitor);
        }
        if visitors(log).contains(visitor) {
            let j = choose|j: int| 0 <= j < log.len() && (#[trigger] log[j]).visitor == visitor;
            assert(listed[owner[j] as int] == visitor);
        }
    }
    assert(listed.to_set() =~= visitors(log));
    assert forall|k: int| 0 <= k < profiles.len() implies entry_slug(log, #[trigger] listed[k])
        == log[profiles[k].entry as int].slug by {
        assert(profile_fits(log, profiles[k], log.len() as int));
        assert(is_entry(log, profiles[k].entry as int));
        crate::funnel::lemma_entry_is(log, profiles[k].entry as int);
    }
    assert forall|k: int| 0 <= k < profiles.len() implies (profiles[k].wide <==> breadth(
        log,
        #[trigger] listed[k],
    ) > 1) by {
        assert(profile_fits(log, profiles[k], log.len() as int));
        crate::funnel::lemma_breadth_over_one(log, profiles[k].first_hit as int);
    }
    assert forall|j: int, k: int| 0 <= j < log.len() && 0 <= k < profiles.len() implies (
    #[trigger] owner[j] == k <==> log[j].visitor == #[trigger] listed[k]) by {
        let at = owner[j] as int;
        assert(listed[at] == log[j].visitor);
    }
}

/// Lists, for each member that has a hit, the position of its first hit, in
/// the order of these positions.
fn first_appearances(hits: &Vec<Hit>) -> (firsts: Vec<usize>)
    ensures
        firsts.len() == slugs_in_order(log_of(hits@)).len(),
        forall|m: int|
            0 <= m < firsts.len() ==> (#[trigger] firsts[m]) < hits.len() && hits[firsts[m] as int].slug@
                == slugs_in_order(log_of(hits@))[m],
{
    let ghost log = log_of(hits@);
    let mut firsts: Vec<usize> = Vec::new();
    let mut at: usize = 0;
    assert(log.take(0) =~= Seq::<Visit>::empty());
    while at < hits.len()
        invariant
            log == log_of(hits@),
            at <= hits.len(),
            firsts.len() == slugs_in_order(log.take(at as int)).len(),
            forall|m: int|
                0 <= m < firsts.len() ==> (#[trigger] firsts[m]) < at && hits[firsts[m] as int].slug@
                    == slugs_in_order(log.take(at as int))[m],
        decreases hits.len() - at,
    {
        let ghost names = slugs_in_order(log.take(at as int));
        let mut known = false;
        let mut m: usize = 0;
        while m < firsts.len()
            invariant
                log == log_of(hits@),
                at < hits.len(),
                m <= firsts.len(),
                firsts.len() == names.len(),
                forall|m: int|
                    0 <= m < firsts.len() ==> (#[trigger] firsts[m]) < at
                        && hits[firsts[m] as int].slug@ == names[m],
                known == exists|t: int| 0 <= t < m && names[t] == hits[at as int].slug@,
            decreases firsts.len() - m,
        {
            if hits[firsts[m]].slug == hits[at].slug {
                known = true;
                assert(names[m as int] == hits[at as int].slug@);
            }
            m += 1;
        }
        proof {
            let longer = log.take(at + 1);
            assert(longer.drop_last() =~= log.take(at as int));
            assert(longer.last() == log[at as int]);
            assert(known == names.contains(log[at as int].slug));
        }
        if !known {
            firsts.push(at);
        }
        at += 1;
    }
    assert(log.take(at as int) =~= log);
    firsts
}

/// Marks the visitors who have a hit at `slug`.
fn mark_audience(
    hits: &Vec<Hit>,
    owner: &Vec<usize>,
    profiles: usize,
    slug: &String,
) -> (seen: Vec<bool>)
    requires
        owner.len() == hits.len(),
        forall|j: int| 0 <= j < owner.len() ==> (#[trigger] owner[j]) < profiles,
    ensures
        seen.len() == profiles,
        forall|k: int|
            0 <= k < profiles ==> (#[trigger] seen[k] <==> exists|j: int|
                0 <= j < hits.len() && #[trigger] owner[j] == k && hits[j].slug@ == slug@),
{
    let mut seen: Vec<bool> = Vec::new();
    while seen.len() < profiles
        invariant
            seen.len() <= profiles,
            forall|k: int| 0 <= k < seen.len() ==> !(#[trigger] seen[k]),
        decreases profiles - seen.len(),
    {
        seen.push(false);
    }
    let mut at: usize = 0;
    while at < hits.len()
        invariant
            at <= hits.len(),
            owner.len() == hits.len(),
            seen.len() == profiles,
            forall|j: int| 0 <= j < owner.len() ==> (#[trigger] owner[j]) < profiles,
            forall|k: int|
                0 <= k < profiles ==> (#[trigger] seen[k] <==> exists|j: int|
                    0 <= j < at && #[trigger] owner[j] == k && hits[j].slug@ == slug@),
        decreases hits.len() - at,
    {
        if hits[at].slug == *slug {
            let ghost before = seen@;
            seen.set(owner[at], true);
            assert forall|k: int| 0 <= k < profiles implies (#[trigger] seen[k] <==> exists|j: int|
                0 <= j < at + 1 && #[trigger] owner[j] == k && hits[j].slug@ == slug@) by {
                if k == owner[at as int] {
                    assert(owner[at as int] == k && hits[at as int].slug@ == slug@);
                } else {
                    assert(seen[k] == before[k]);
                }
            }
        }
        at += 1;
    }
    seen
}

/// `visitor` has a hit at `slug`.
spec fn came_to(log: Seq<Visit>, slug: Seq<char>) -> spec_fn(Seq<u8>) -> bool {
    |visitor: Seq<u8>| visited(log, visitor, slug)
}

/// `visitor` entered the ring at `slug`.
spec fn entered_here(log: Seq<Visit>, slug: Seq<char>) -> spec_fn(Seq<u8>) -> bool {
    |visitor: Seq<u8>| entry_slug(log, visitor) == slug
}

/// `visitor` has a hit at `slug` and entered the ring elsewhere.
spec fn arrived_here(log: Seq<Visit>, slug: Seq<char>) -> spec_fn(Seq<u8>) -> bool {
    |visitor: Seq<u8>| visited(log, visitor, slug) && entry_slug(log, visitor) != slug
}

/// `visitor` entered the ring at `slug` and went to another member too.
spec fn sent_on_here(log: Seq<Visit>, slug: Seq<char>) -> spec_fn(Seq<u8>) -> bool {
    |visitor: Seq<u8>| entry_slug(log, visitor) == slug && breadth(log, visitor) > 1
}

/// Counting over a list of all visitors gives the record of `slug`.
proof fn lemma_counts_are_tally(log: Seq<Visit>, slug: Seq<char>, listed: Seq<Seq<u8>>)
    requires
        listed.no_duplicates(),
        listed.to_set() == visitors(log),
    ensures
        tally(log, slug) == (Tally {
            slug,
            first_visit_users: count_in(listed, entered_here(log, slug)) as int,
            returning_users: count_in(listed, arrived_here(log, slug)) as int,
            total_unique_visitors: count_in(listed, came_to(log, slug)) as int,
            driven_to_others: count_in(listed, sent_on_here(log, slug)) as int,
        }),
{
    lemma_count_is_cardinality(listed, entered_here(log, slug));
    lemma_count_is_cardinality(listed, arrived_here(log, slug));
    lemma_count_is_cardinality(listed, came_to(log, slug));
    lemma_count_is_cardinality(listed, sent_on_here(log, slug));
    assert(entered_at(log, slug) =~= visitors(log).filter(entered_here(log, slug)));
    assert(arrived_at(log, slug) =~= visitors(log).filter(arrived_here(log, slug)));
    assert(audience(log, slug) =~= visitors(log).filter(came_to(log, slug)));
    assert(sent_on_from(log, slug) =~= visitors(log).filter(sent_on_here(log, slug)));
}

/// Counts the visitors of one member.
fn tally_member(
    hits: &Vec<Hit>,
    profiles: &Vec<Profile>,
    owner: &Vec<usize>,
    at: usize,
) -> (record: SiteStats)
    requires
        profiles.len() <= i32::MAX,
        at < hits.len(),
        profiled(log_of(hits@), profiles@, owner@, hits.len() as int),
    ensures
        record@ == tally(log_of(hits@), hits[at as int].slug@),
{
    let ghost log = log_of(hits@);
    let ghost listed = profiled_visitors(log, profiles@);
    let slug = hits[at].slug.clone();
    let ghost name = slug@;
    let seen = mark_audience(hits, owner, profiles.len(), &slug);
    proof {
        lemma_profiles_complete(log, profiles@, owner@);
        assert(listed.take(0) =~= Seq::<Seq<u8>>::empty());
    }
    let mut first: i32 = 0;
    let mut returning: i32 = 0;
    let mut total: i32 = 0;
    let mut driven: i32 = 0;
    let mut k: usize = 0;
    while k < profiles.len()
        invariant
            log == log_of(hits@),
            listed == profiled_visitors(log, profiles@),
            name == slug@,
            profiles.len() <= i32::MAX,
            seen.len() == profiles.len(),
            k <= profiles.len(),
            profiled(log, profiles@, owner@, hits.len() as int),
            forall|k: int|
                0 <= k < profiles.len() ==> (#[trigger] seen[k] <==> exists|j: int|
                    0 <= j < hits.len() && #[trigger] owner[j] == k && hits[j].slug@ == name),
            forall|k: int|
                0 <= k < profiles.len() ==> entry_slug(log, #[trigger] listed[k])
                    == log[profiles[k].entry as int].slug,
            forall|k: int|
                0 <= k < profiles.len() ==> (profiles[k].wide <==> breadth(log, #[trigger] listed[k])
                    > 1),
            forall|j: int, k: int|
                0 <= j < log.len() && 0 <= k < profiles.len() ==> (#[trigger] owner[j] == k
                    <==> log[j].visitor == #[trigger] listed[k]),
            0 <= first <= k,
            0 <= returning <= k,
            0 <= total <= k,
            0 <= driven <= k,
            first == count_in(listed.take(k as int), entered_here(log, name)),
            returning == count_in(listed.take(k as int), arrived_here(log, name)),
            total == count_in(listed.take(k as int), came_to(log, name)),
            driven == count_in(listed.take(k as int), sent_on_here(log, name)),
        decreases profiles.len() - k,
    {
        let profile = &profiles[k];
        assert(profile_fits(log, *profile, hits.len() as int));
        let entered = hits[profile.entry].slug == slug;
        proof {
            let visitor = listed[k as int];
            assert(listed.take(k + 1) =~= listed.take(k as int).push(visitor));
            lemma_count_in_push(listed.take(k as int), visitor, entered_here(log, name));
            lemma_count_in_push(listed.take(k as int), visitor, arrived_here(log, name));
            lemma_count_in_push(listed.take(k as int), visitor, came_to(log, name));
            lemma_count_in_push(listed.take(k as int), visitor, sent_on_here(log, name));
            assert(entered == (entry_slug(log, visitor) == name));
            assert(seen[k as int] == visited(log, visitor, name)) by {
                if seen[k as int] {
                    let j = choose|j: int|
                        0 <= j < hits.len() && #[trigger] owner[j] == k && hits[j].slug@ == name;
                    assert(log[j].visitor == visitor && log[j].slug == name);
                }
                if visited(log, visitor, name) {
                    let j = choose|j: int|
                        0 <= j < log.len() && (#[trigger] log[j]).visitor == visitor && log[j].slug
                            == name;
                    assert(owner[j] == k);
                    assert(hits[j].slug@ == name);
                }
            }
        }
        if seen[k] {
            total += 1;
            if !entered {
                returning += 1;
            }
        }
        if entered {
            first += 1;
            if profile.wide {
                driven += 1;
            }
        }
        k += 1;
    }
    proof {
        assert(listed.take(k as int) =~= listed);
        lemma_counts_are_tally(log, name, listed);
    }
    SiteStats {
        slug,
        first_visit_users: first,
        returning_users: returning,
        total_unique_visitors: total,
        driven_to_others: driven,
    }
}

impl SiteStats {
    /// The record of a member without any hit.
    pub fn default_for_slug(slug: &str) -> (record: SiteStats)
        ensures
            record@ == empty_tally(slug@),
    {
        SiteStats {
            slug: slug.to_owned(),
            first_visit_users: 0,
            returning_users: 0,
            total_unique_visitors: 0,
            driven_to_others: 0,
        }
    }

    /// Computes the funnel statistics of a hit log: one record for each
    /// member that has a hit, in the order in which the members first appear
    /// in the log. A member without any hit gets no record.
    ///
    /// The counts are held in `i32`. A log with more distinct visitors than
    /// that can hold gives no statistics; every other log does.
    pub fn fetch(hits: &Vec<Hit>) -> (outcome: Result<Vec<SiteStats>, StatsError>)
        ensures
            match outcome {
                Ok(stats) => {
                    &&& visitors(log_of(hits@)).len() <= i32::MAX
                    &&& tallies_of(stats@) == stats_of(log_of(hits@))
                    &&& first_visit_total(tallies_of(stats@)) == visitors(log_of(hits@)).len()
                    &&& forall|k: int|
                        0 <= k < stats.len() ==> (#[trigger] stats[k]).total_unique_visitors
                            == stats[k].first_visit_users + stats[k].returning_users
                    &&& forall|k: int|
                        0 <= k < stats.len() ==> 0 <= (#[trigger] stats[k]).driven_to_others
                            <= stats[k].first_visit_users
                },
                Err(error) => error is TooManyVisitors && visitors(log_of(hits@)).len() > i32::MAX,
            },
    {
        let ghost log = log_of(hits@);
        let ghost names = slugs_in_order(log);
        let (profiles, owner) = profile_visitors(hits);
        proof {
            lemma_profiles_complete(log, profiles@, owner@);
            profiled_visitors(log, profiles@).unique_seq_to_set();
            assert(visitors(log).len() == profiles.len());
        }
        if profiles.len() > 0x7fff_ffff {
            return Err(StatsError::TooManyVisitors);
        }
        let firsts = first_appearances(hits);
        let mut stats: Vec<SiteStats> = Vec::new();
        let mut m: usize = 0;
        while m < firsts.len()
            invariant
                log == log_of(hits@),
                names == slugs_in_order(log),
                profiles.len() <= i32::MAX,
                profiled(log, profiles@, owner@, hits.len() as int),
                firsts.len() == names.len(),
                forall|m: int|
                    0 <= m < firsts.len() ==> (#[trigger] firsts[m]) < hits.len()
                        && hits[firsts[m] as int].slug@ == names[m],
                m <= firsts.len(),
                stats.len() == m,
                forall|t: int| 0 <= t < m ==> (#[trigger] stats[t])@ == tally(log, names[t]),
            decreases firsts.len() - m,
        {
            let record = tally_member(hits, &profiles, &owner, firsts[m]);
            stats.push(record);
            m += 1;
        }
        proof {
            assert(tallies_of(stats@) =~= stats_of(log));
            crate::funnel::lemma_every_visitor_enters_once(log);
            assert forall|k: int| 0 <= k < stats.len() implies (#[trigger] stats[k]).total_unique_visitors
                == stats[k].first_visit_users + stats[k].returning_users && 0
                <= stats[k].driven_to_others <= stats[k].first_visit_users by {
                assert(stats[k]@ == tally(log, names[k]));
                crate::funnel::lemma_total_is_first_plus_returning(log, names[k]);
                crate::funnel::lemma_driven_within_first(log, names[k]);
            }
        }
        Ok(stats)
    }
}

} // verus!
