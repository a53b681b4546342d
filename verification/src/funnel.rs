//! Laws of the funnel statistics.
//!
//! Everything here is stated over the mathematical model of the hit log, so
//! it holds of every log and of whatever computes the statistics from it.

use vstd::prelude::*;
use vstd::seq_lib::seq_to_set_is_finite;
use vstd::set_lib::{lemma_len_subset, lemma_set_disjoint_lens};
use crate::models::{
    arrived_at, audience, breadth, empty_tally, entered_at, entry_of, entry_slug,
    first_visit_total, has_hit, has_record, is_entry, recorded_before, sent_on_from,
    slugs_in_order, slugs_seen_by, stats_of, tally, visited, visitors, Visit,
};

verus! {

/// Only finitely many visitors stand in a log.
pub proof fn lemma_visitors_finite(log: Seq<Visit>)
    ensures
        visitors(log).finite(),
        visitors(log).len() <= log.len(),
{
    let digests = log.map_values(|hit: Visit| hit.visitor);
    seq_to_set_is_finite(digests);
    assert forall|visitor: Seq<u8>| visitors(log).contains(visitor) <==> digests.to_set().contains(
        visitor,
    ) by {
        if visitors(log).contains(visitor) {
            let i = choose|i: int| 0 <= i < log.len() && (#[trigger] log[i]).visitor == visitor;
            assert(digests[i] == visitor);
        }
        if digests.contains(visitor) {
            let i = choose|i: int| 0 <= i < digests.len() && digests[i] == visitor;
            assert(log[i].visitor == visitor);
        }
    }
    assert(visitors(log) =~= digests.to_set());
    digests.lemma_cardinality_of_set();
}

/// A visitor went to finitely many members.
pub proof fn lemma_slugs_seen_finite(log: Seq<Visit>, visitor: Seq<u8>)
    ensures
        slugs_seen_by(log, visitor).finite(),
{
    let names = log.map_values(|hit: Visit| hit.slug);
    seq_to_set_is_finite(names);
    assert forall|slug: Seq<char>| slugs_seen_by(log, visitor).contains(slug) implies names.to_set().contains(
        slug,
    ) by {
        let i = choose|i: int|
            0 <= i < log.len() && (#[trigger] log[i]).visitor == visitor && log[i].slug == slug;
        assert(names[i] == slug);
    }
    lemma_len_subset(slugs_seen_by(log, visitor), names.to_set());
}

/// A visitor went to more than one member exactly when one of their hits
/// names another member than hit `i` of theirs does.
pub proof fn lemma_breadth_over_one(log: Seq<Visit>, i: int)
    requires
        0 <= i < log.len(),
    ensures
        breadth(log, log[i].visitor) > 1 <==> exists|j: int|
            0 <= j < log.len() && (#[trigger] log[j]).visitor == log[i].visitor && log[j].slug
                != log[i].slug,
{
    let visitor = log[i].visitor;
    let seen = slugs_seen_by(log, visitor);
    lemma_slugs_seen_finite(log, visitor);
    assert(visited(log, visitor, log[i].slug));
    let one = Set::<Seq<char>>::empty().insert(log[i].slug);
    if exists|j: int|
        0 <= j < log.len() && (#[trigger] log[j]).visitor == visitor && log[j].slug != log[i].slug {
        let j = choose|j: int|
            0 <= j < log.len() && (#[trigger] log[j]).visitor == visitor && log[j].slug
                != log[i].slug;
        assert(visited(log, visitor, log[j].slug));
        let two = one.insert(log[j].slug);
        assert(two.subset_of(seen));
        lemma_len_subset(two, seen);
        assert(two.len() == 2);
    } else {
        assert forall|slug: Seq<char>| seen.contains(slug) implies slug == log[i].slug by {
            let j = choose|j: int|
                0 <= j < log.len() && (#[trigger] log[j]).visitor == visitor && log[j].slug == slug;
            assert(log[j].visitor == visitor);
        }
        assert(seen =~= one);
        assert(one.len() == 1);
    }
}

/// Among the first `upto` hits, a visitor who has one has a first one.
proof fn lemma_entry_among(log: Seq<Visit>, visitor: Seq<u8>, upto: int) -> (entry: int)
    requires
        0 <= upto <= log.len(),
        exists|j: int| 0 <= j < upto && (#[trigger] log[j]).visitor == visitor,
    ensures
        0 <= entry < upto,
        log[entry].visitor == visitor,
        forall|j: int|
            0 <= j < upto && (#[trigger] log[j]).visitor == visitor ==> recorded_before(
                log,
                entry,
                j,
            ),
    decreases upto,
{
    let last = upto - 1;
    if exists|j: int| 0 <= j < last && (#[trigger] log[j]).visitor == visitor {
        let before = lemma_entry_among(log, visitor, last);
        if log[last].visitor == visitor && log[last].id < log[before].id {
            last
        } else {
            before
        }
    } else {
        let j = choose|j: int| 0 <= j < upto && (#[trigger] log[j]).visitor == visitor;
        assert(j == last);
        last
    }
}

/// Two first hits of one visitor are one hit.
pub proof fn lemma_entry_unique(log: Seq<Visit>, i: int, k: int)
    requires
        is_entry(log, i),
        is_entry(log, k),
        log[i].visitor == log[k].visitor,
    ensures
        i == k,
{
    assert(recorded_before(log, i, k));
    assert(recorded_before(log, k, i));
}

/// The first hit of a visitor is the one that [`entry_of`] names.
pub proof fn lemma_entry_is(log: Seq<Visit>, i: int)
    requires
        is_entry(log, i),
    ensures
        entry_of(log, log[i].visitor) == i,
        entry_slug(log, log[i].visitor) == log[i].slug,
{
    let chosen = entry_of(log, log[i].visitor);
    assert(is_entry(log, chosen) && log[chosen].visitor == log[i].visitor);
    lemma_entry_unique(log, i, chosen);
}

/// Every visitor has a first hit, and entered the ring at its member.
pub proof fn lemma_entry_exists(log: Seq<Visit>, visitor: Seq<u8>)
    requires
        visitors(log).contains(visitor),
    ensures
        is_entry(log, entry_of(log, visitor)),
        log[entry_of(log, visitor)].visitor == visitor,
        visited(log, visitor, entry_slug(log, visitor)),
{
    let entry = lemma_entry_among(log, visitor, log.len() as int);
    assert(is_entry(log, entry));
    lemma_entry_is(log, entry);
}

/// The four groups of visitors that a record counts are finite.
pub proof fn lemma_groups_finite(log: Seq<Visit>, slug: Seq<char>)
    ensures
        audience(log, slug).finite(),
        entered_at(log, slug).finite(),
        arrived_at(log, slug).finite(),
        sent_on_from(log, slug).finite(),
{
    lemma_visitors_finite(log);
    lemma_len_subset(audience(log, slug), visitors(log));
    lemma_len_subset(entered_at(log, slug), visitors(log));
    lemma_len_subset(arrived_at(log, slug), visitors(log));
    lemma_len_subset(sent_on_from(log, slug), visitors(log));
}

/// Whoever came to a member either entered the ring there or arrived from
/// elsewhere, never both: the total of unique visitors is the sum of the
/// first-visit users and the returning users.
pub proof fn lemma_total_is_first_plus_returning(log: Seq<Visit>, slug: Seq<char>)
    ensures
        tally(log, slug).total_unique_visitors == tally(log, slug).first_visit_users + tally(
            log,
            slug,
        ).returning_users,
{
    let first = entered_at(log, slug);
    let returning = arrived_at(log, slug);
    lemma_groups_finite(log, slug);
    assert forall|visitor: Seq<u8>| first.contains(visitor) implies audience(log, slug).contains(
        visitor,
    ) by {
        lemma_entry_exists(log, visitor);
    }
    assert(audience(log, slug) =~= first + returning);
    assert(first.disjoint(returning));
    lemma_set_disjoint_lens(first, returning);
}

/// Whoever was sent on from a member entered the ring there: no member
/// drives more visitors to others than entered at it.
pub proof fn lemma_driven_within_first(log: Seq<Visit>, slug: Seq<char>)
    ensures
        0 <= tally(log, slug).driven_to_others <= tally(log, slug).first_visit_users,
{
    lemma_groups_finite(log, slug);
    lemma_len_subset(sent_on_from(log, slug), entered_at(log, slug));
}

/// A member without any hit has the empty record.
pub proof fn lemma_unvisited_is_empty(log: Seq<Visit>, slug: Seq<char>)
    requires
        !has_hit(log, slug),
    ensures
        tally(log, slug) == empty_tally(slug),
{
    assert forall|visitor: Seq<u8>| !audience(log, slug).contains(visitor) by {
        if visited(log, visitor, slug) {
            let i = choose|i: int|
                0 <= i < log.len() && (#[trigger] log[i]).visitor == visitor && log[i].slug == slug;
            assert(log[i].slug == slug);
        }
    }
    assert forall|visitor: Seq<u8>| !entered_at(log, slug).contains(visitor) by {
        if visitors(log).contains(visitor) {
            lemma_entry_exists(log, visitor);
        }
    }
    assert(audience(log, slug) =~= Set::empty());
    assert(entered_at(log, slug) =~= Set::empty());
    assert(arrived_at(log, slug) =~= Set::empty());
    assert(sent_on_from(log, slug) =~= Set::empty());
}

/// The members listed by [`slugs_in_order`] are those that have a hit, each
/// listed once.
pub proof fn lemma_slugs_in_order(log: Seq<Visit>)
    ensures
        slugs_in_order(log).no_duplicates(),
        slugs_in_order(log).len() <= log.len(),
        forall|slug: Seq<char>| #[trigger]
            slugs_in_order(log).contains(slug) <==> has_hit(log, slug),
    decreases log.len(),
{
    if log.len() > 0 {
        let shorter = log.drop_last();
        let earlier = slugs_in_order(shorter);
        let name = log.last().slug;
        lemma_slugs_in_order(shorter);
        let listed = slugs_in_order(log);
        assert forall|slug: Seq<char>| #[trigger] listed.contains(slug) <==> has_hit(log, slug) by {
            if listed.contains(slug) {
                let k = choose|k: int| 0 <= k < listed.len() && listed[k] == slug;
                if k < earlier.len() {
                    assert(earlier[k] == slug);
                    assert(earlier.contains(slug));
                    assert(has_hit(shorter, slug));
                    let i = choose|i: int| 0 <= i < shorter.len() && (#[trigger] shorter[i]).slug == slug;
                    assert(log[i].slug == slug);
                } else {
                    assert(log[log.len() - 1].slug == slug);
                }
            }
            if has_hit(log, slug) {
                let i = choose|i: int| 0 <= i < log.len() && (#[trigger] log[i]).slug == slug;
                if i < shorter.len() {
                    assert(shorter[i].slug == slug);
                    assert(has_hit(shorter, slug));
                    assert(earlier.contains(slug));
                    let k = choose|k: int| 0 <= k < earlier.len() && earlier[k] == slug;
                    assert(listed[k] == slug);
                } else if earlier.contains(name) {
                    let k = choose|k: int| 0 <= k < earlier.len() && earlier[k] == name;
                    assert(listed[k] == slug);
                } else {
                    assert(listed[listed.len() - 1] == slug);
                }
            }
        }
    }
}

/// Over a list of distinct members, the first-visit users add up to the
/// number of visitors who entered the ring at one of them.
proof fn lemma_first_visits_add_up(log: Seq<Visit>, names: Seq<Seq<char>>)
    requires
        names.no_duplicates(),
    ensures
        first_visit_total(names.map_values(|slug: Seq<char>| tally(log, slug))) == visitors(
            log,
        ).filter(|visitor: Seq<u8>| names.contains(entry_slug(log, visitor))).len(),
    decreases names.len(),
{
    let records = names.map_values(|slug: Seq<char>| tally(log, slug));
    let covered = visitors(log).filter(|visitor: Seq<u8>| names.contains(entry_slug(log, visitor)));
    lemma_visitors_finite(log);
    if names.len() == 0 {
        assert(covered =~= Set::empty());
    } else {
        let rest = names.drop_last();
        let name = names.last();
        let before = visitors(log).filter(|visitor: Seq<u8>| rest.contains(entry_slug(log, visitor)));
        lemma_first_visits_add_up(log, rest);
        assert(records.drop_last() =~= rest.map_values(|slug: Seq<char>| tally(log, slug)));
        assert(records.last() == tally(log, name));
        lemma_groups_finite(log, name);
        lemma_len_subset(before, visitors(log));
        assert forall|visitor: Seq<u8>| covered.contains(visitor) <==> (before + entered_at(
            log,
            name,
        )).contains(visitor) by {
            let entry = entry_slug(log, visitor);
            if names.contains(entry) {
                let k = choose|k: int| 0 <= k < names.len() && names[k] == entry;
                if k < rest.len() {
                    assert(rest[k] == entry);
                }
            }
            if rest.contains(entry) {
                let k = choose|k: int| 0 <= k < rest.len() && rest[k] == entry;
                assert(names[k] == entry);
            }
            if entry == name {
                assert(names[names.len() - 1] == entry);
            }
        }
        assert(covered =~= before + entered_at(log, name));
        assert(before.disjoint(entered_at(log, name))) by {
            assert forall|visitor: Seq<u8>|
                !(before.contains(visitor) && entered_at(log, name).contains(visitor)) by {
                if rest.contains(name) {
                    let k = choose|k: int| 0 <= k < rest.len() && rest[k] == name;
                    assert(names[k] == names[names.len() - 1]);
                }
            }
        }
        lemma_set_disjoint_lens(before, entered_at(log, name));
    }
}

/// Every visitor has exactly one entry slug: over the records of a log, the
/// first-visit users add up to the number of distinct visitors.
pub proof fn lemma_every_visitor_enters_once(log: Seq<Visit>)
    ensures
        first_visit_total(stats_of(log)) == visitors(log).len(),
{
    let names = slugs_in_order(log);
    lemma_slugs_in_order(log);
    lemma_first_visits_add_up(log, names);
    let covered = visitors(log).filter(|visitor: Seq<u8>| names.contains(entry_slug(log, visitor)));
    assert forall|visitor: Seq<u8>| visitors(log).contains(visitor) implies covered.contains(
        visitor,
    ) by {
        lemma_entry_exists(log, visitor);
        let entry = entry_of(log, visitor);
        assert(log[entry].slug == entry_slug(log, visitor));
    }
    assert(covered =~= visitors(log));
}

/// The records of a log are those of the members that have a hit, one for
/// each; a member without any hit has none.
pub proof fn lemma_stats_cover_visited_members(log: Seq<Visit>)
    ensures
        stats_of(log).len() == slugs_in_order(log).len(),
        forall|k: int|
            0 <= k < stats_of(log).len() ==> #[trigger] stats_of(log)[k] == tally(
                log,
                slugs_in_order(log)[k],
            ),
        forall|slug: Seq<char>| #[trigger] has_record(stats_of(log), slug) <==> has_hit(log, slug),
{
    let names = slugs_in_order(log);
    let records = stats_of(log);
    lemma_slugs_in_order(log);
    assert forall|slug: Seq<char>| #[trigger] has_record(records, slug) <==> has_hit(log, slug) by {
        if has_record(records, slug) {
            let k = choose|k: int| 0 <= k < records.len() && (#[trigger] records[k]).slug == slug;
            assert(names[k] == slug);
            assert(names.contains(slug));
        }
        if names.contains(slug) {
            let k = choose|k: int| 0 <= k < names.len() && names[k] == slug;
            assert(records[k].slug == slug);
        }
    }
}

} // verus!
