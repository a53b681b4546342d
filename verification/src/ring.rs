//! What the pages of the ring show: the directory, the random hop and the
//! neighbours of a member in the ring.
//!
//! Only healthy members take part in the ring. A member's own embed still
//! lists the member itself, healthy or not, so that it renders and links out.

use rand::seq::SliceRandom;
use vstd::prelude::*;
use crate::config::{chosen_or, copy_texts, text_of, texts_of, Member, MemberView};
use crate::counting::{lemma_filter_empty, lemma_filter_take};
use crate::health::{Health, Verdict};
use crate::manager::listing_of;
use crate::text::{chars_of, string_of};

verus! {

/// The last segment of the address that a visitor came from, if they said
/// where they came from.
#[derive(Debug)]
pub struct LastSegment(pub Option<String>);

/// The text is `len` characters long from its last slash on, or as a whole
/// where it has none.
pub open spec fn tail_starts(text: Seq<char>, len: int) -> bool {
    &&& 0 <= len <= text.len()
    &&& forall|k: int| text.len() - len <= k < text.len() ==> #[trigger] text[k] != '/'
    &&& (len == text.len() || text[text.len() - len - 1] == '/')
}

/// What follows the last slash of `text`.
pub open spec fn after_last_slash(text: Seq<char>) -> Seq<char> {
    let len = choose|len: int| tail_starts(text, len);
    text.subrange(text.len() - len, text.len() as int)
}

/// A text has one tail only.
pub proof fn lemma_tail_unique(text: Seq<char>, len: int)
    requires
        tail_starts(text, len),
    ensures
        after_last_slash(text) == text.subrange(text.len() - len, text.len() as int),
{
    let other = choose|len: int| tail_starts(text, len);
    assert(tail_starts(text, other));
    if other < len {
        assert(text[text.len() - other - 1] != '/');
    }
    if len < other {
        assert(text[text.len() - len - 1] != '/');
    }
}

impl LastSegment {
    /// Reads the last segment out of the `Referer` header of a request;
    /// `referer` is the header's value, `None` where the request has none.
    pub fn from_request(referer: Option<&str>) -> (segment: LastSegment)
        ensures
            text_of(segment.0) == match referer {
                Some(address) => Some(after_last_slash(address@)),
                None => None,
            },
    {
        match referer {
            None => LastSegment(None),
            Some(address) => {
                let text = chars_of(address);
                let mut len: usize = 0;
                while len < text.len() && text[text.len() - len - 1] != '/'
                    invariant
                        len <= text.len(),
                        forall|k: int|
                            text.len() - len <= k < text.len() ==> #[trigger] text@[k] != '/',
                    decreases text.len() - len,
                {
                    len += 1;
                }
                proof {
                    lemma_tail_unique(text@, len as int);
                }
                LastSegment(Some(string_of(&text, text.len() - len, text.len())))
            },
        }
    }
}

/// The member's last health check found it in order.
pub open spec fn is_alive(entry: (MemberView, Option<Verdict>)) -> bool {
    entry.1 == Some(Verdict::Healthy)
}

/// Tests whether a status is that of a healthy member.
pub fn is_healthy(status: &Option<Health>) -> (healthy: bool)
    ensures
        healthy == match status {
            Some(health) => health@ == Verdict::Healthy,
            None => false,
        },
{
    match status {
        Some(Health::Healthy) => true,
        _ => false,
    }
}

/// The entry is that of a member that is alive.
pub open spec fn alive() -> spec_fn((Member, Option<Health>)) -> bool {
    |entry: (Member, Option<Health>)| entry.1 matches Some(health) && health@ == Verdict::Healthy
}

/// The entry is that of a member that is failing, or not probed yet.
pub open spec fn failing() -> spec_fn((Member, Option<Health>)) -> bool {
    |entry: (Member, Option<Health>)| !(entry.1 matches Some(health) && health@ == Verdict::Healthy)
}

/// The member of an entry.
pub open spec fn member_of() -> spec_fn((Member, Option<Health>)) -> Member {
    |entry: (Member, Option<Health>)| entry.0
}

/// Splits a listing for the directory page: the members that are alive, and
/// the others with their statuses. Both keep the listing's order.
pub fn index(
    listing: Vec<(Member, Option<Health>)>,
) -> (parts: (Vec<Member>, Vec<(Member, Option<Health>)>))
    ensures
        parts.0@ == listing@.filter(alive()).map_values(member_of()),
        parts.1@ == listing@.filter(failing()),
{
    let mut ok_members: Vec<Member> = Vec::new();
    let mut not_ok_members: Vec<(Member, Option<Health>)> = Vec::new();
    let ghost all = listing@;
    proof {
        lemma_filter_empty::<(Member, Option<Health>)>(alive());
        lemma_filter_empty::<(Member, Option<Health>)>(failing());
        assert(all.take(0) =~= Seq::empty());
        assert(ok_members@ =~= all.take(0).filter(alive()).map_values(member_of()));
    }
    for entry in it: listing
        invariant
            it.seq() == all,
            ok_members@ == all.take(it.index() as int).filter(alive()).map_values(member_of()),
            not_ok_members@ == all.take(it.index() as int).filter(failing()),
    {
        let ghost at = it.index() as int;
        proof {
            lemma_filter_take(all, at, alive());
            lemma_filter_take(all, at, failing());
        }
        if is_healthy(&entry.1) {
            ok_members.push(entry.0);
            assert(ok_members@ =~= all.take(at + 1).filter(alive()).map_values(member_of()));
        } else {
            not_ok_members.push(entry);
        }
    }
    assert(all.take(all.len() as int) =~= all);
    (ok_members, not_ok_members)
}

/// Why a member is not listed as alive. A healthy member is listed as alive,
/// so there is no reason for it.
pub open spec fn reason_of(status: Option<Verdict>) -> Option<Seq<char>> {
    match status {
        Some(Verdict::Healthy) => None,
        Some(Verdict::SiteUnreachable) => Some("site unreachable"@),
        Some(Verdict::NoWebringEmbed) => Some("embed missing from site"@),
        Some(Verdict::SlugMismatch(_)) => Some("embed url has wrong slug"@),
        None => Some("healthcheck pending..."@),
    }
}

/// Says why a member is not listed as alive. There is no reason to give for
/// a healthy member.
pub fn failure_reason(status: &Option<Health>) -> (reason: &'static str)
    requires
        !(status matches Some(health) && health@ == Verdict::Healthy),
    ensures
        Some(reason@) == reason_of(
            match status {
                Some(health) => Some(health@),
                None => None,
            },
        ),
{
    match status {
        Some(Health::SiteUnreachable) => "site unreachable",
        Some(Health::NoWebringEmbed) => "embed missing from site",
        Some(Health::SlugMismatch(_)) => "embed url has wrong slug",
        _ => "healthcheck pending...",
    }
}

/// The entry is that of a member a random hop may lead to: alive, and not
/// the one that the visitor comes from.
pub open spec fn hop_target(from: Option<Seq<char>>) -> spec_fn(
    (MemberView, Option<Verdict>),
) -> bool {
    |entry: (MemberView, Option<Verdict>)| is_alive(entry) && from != Some(entry.0.slug)
}

/// The address of an entry's member.
pub open spec fn url_of() -> spec_fn((MemberView, Option<Verdict>)) -> Seq<char> {
    |entry: (MemberView, Option<Verdict>)| entry.0.url
}

/// The addresses that a random hop may lead to, in the listing's order.
pub open spec fn hop_targets(
    listing: Seq<(MemberView, Option<Verdict>)>,
    from: Option<Seq<char>>,
) -> Seq<Seq<char>> {
    listing.filter(hop_target(from)).map_values(url_of())
}

/// Tests whether the visitor comes from the member `slug`.
fn comes_from(last_segment: &LastSegment, slug: &String) -> (same: bool)
    ensures
        same == (text_of(last_segment.0) == Some(slug@)),
{
    match &last_segment.0 {
        Some(segment) => *segment == *slug,
        None => false,
    }
}

/// Lists the addresses that a random hop may lead to.
pub fn random_candidates(
    listing: &Vec<(Member, Option<Health>)>,
    last_segment: &LastSegment,
) -> (urls: Vec<String>)
    ensures
        texts_of(urls@) == hop_targets(listing_of(listing@), text_of(last_segment.0)),
{
    let ghost all = listing_of(listing@);
    let ghost from = text_of(last_segment.0);
    let mut urls: Vec<String> = Vec::new();
    let mut at: usize = 0;
    proof {
        lemma_filter_empty::<(MemberView, Option<Verdict>)>(hop_target(from));
        assert(all.take(0) =~= Seq::empty());
        assert(texts_of(urls@) =~= hop_targets(all.take(0), from));
    }
    while at < listing.len()
        invariant
            all == listing_of(listing@),
            from == text_of(last_segment.0),
            at <= listing.len(),
            texts_of(urls@) == hop_targets(all.take(at as int), from),
        decreases listing.len() - at,
    {
        proof {
            lemma_filter_take(all, at as int, hop_target(from));
        }
        let ghost before = urls@;
        let entry = &listing[at];
        if is_healthy(&entry.1) && !comes_from(last_segment, &entry.0.slug) {
            urls.push(entry.0.url.clone());
            assert(texts_of(urls@) =~= texts_of(before).push(all[at as int].0.url));
            assert(texts_of(urls@) =~= hop_targets(all.take(at + 1), from));
        }
        at += 1;
    }
    assert(all.take(at as int) =~= all);
    urls
}

/// Picks one entry with `rand::seq::SliceRandom::choose`, on the generator
/// that `rand::thread_rng` hands out. As the slice impl of `choose` shows, an
/// empty list gives `None` and any other list gives one of its entries; which
/// one is left open.
#[verifier::external_body]
fn choose_entry(urls: &Vec<String>) -> (picked: Option<&String>)
    ensures
        urls@.len() == 0 ==> picked is None,
        urls@.len() > 0 ==> picked is Some,
        picked matches Some(url) ==> urls@.contains(*url),
{
    urls.choose(&mut rand::thread_rng())
}

/// Draws the address of a random member that is alive and is not the one the
/// visitor comes from. `None` says that there is no such member.
pub fn random(
    listing: &Vec<(Member, Option<Health>)>,
    last_segment: &LastSegment,
) -> (target: Option<String>)
    ensures
        target is None <==> hop_targets(listing_of(listing@), text_of(last_segment.0)).len() == 0,
        target matches Some(url) ==> hop_targets(
            listing_of(listing@),
            text_of(last_segment.0),
        ).contains(url@),
{
    let urls = random_candidates(listing, last_segment);
    let drawn = choose_entry(&urls);
    proof {
        if let Some(url) = drawn {
            let k = choose|k: int| 0 <= k < urls@.len() && urls@[k] == *url;
            assert(texts_of(urls@)[k] == url@);
        }
    }
    match drawn {
        Some(url) => Some(url.clone()),
        None => None,
    }
}

/// What the embed of a member shows.
#[derive(Debug)]
pub struct Embed {
    /// The member's name.
    pub name: String,
    /// Where the link to the previous member leads.
    pub prev_url: String,
    /// Where the link to the next member leads.
    pub next_url: String,
    pub font_stack: String,
    pub font_size: String,
    pub text_color: String,
    pub border_color: String,
    pub link_color: String,
    /// The stylesheets that the embed pulls in.
    pub stylesheets: Vec<String>,
}

/// Mathematical model of an [`Embed`].
pub struct EmbedView {
    pub name: Seq<char>,
    pub prev_url: Seq<char>,
    pub next_url: Seq<char>,
    pub font_stack: Seq<char>,
    pub font_size: Seq<char>,
    pub text_color: Seq<char>,
    pub border_color: Seq<char>,
    pub link_color: Seq<char>,
    pub stylesheets: Seq<Seq<char>>,
}

impl View for Embed {
    type V = EmbedView;

    open spec fn view(&self) -> EmbedView {
        EmbedView {
            name: self.name@,
            prev_url: self.prev_url@,
            next_url: self.next_url@,
            font_stack: self.font_stack@,
            font_size: self.font_size@,
            text_color: self.text_color@,
            border_color: self.border_color@,
            link_color: self.link_color@,
            stylesheets: texts_of(self.stylesheets@),
        }
    }
}

/// The entry takes part in the ring that the embed of `slug` shows: it is
/// alive, or it is the member `slug` itself.
pub open spec fn in_ring(slug: Seq<char>) -> spec_fn((MemberView, Option<Verdict>)) -> bool {
    |entry: (MemberView, Option<Verdict>)| is_alive(entry) || entry.0.slug == slug
}

/// The ring that the embed of `slug` shows, in the listing's order.
pub open spec fn ring_around(listing: Seq<(MemberView, Option<Verdict>)>, slug: Seq<char>) -> Seq<
    (MemberView, Option<Verdict>),
> {
    listing.filter(in_ring(slug))
}

/// The first entry of `slug` in `ring` stands at `at`.
pub open spec fn stands_first(
    ring: Seq<(MemberView, Option<Verdict>)>,
    slug: Seq<char>,
    at: int,
) -> bool {
    &&& 0 <= at < ring.len()
    &&& ring[at].0.slug == slug
    &&& forall|k: int| 0 <= k < at ==> (#[trigger] ring[k]).0.slug != slug
}

/// The place before `at` in a ring of `len` members; the first member's
/// predecessor is the last member.
pub open spec fn place_before(at: int, len: int) -> int {
    if at == 0 {
        len - 1
    } else {
        at - 1
    }
}

/// The place after `at` in a ring of `len` members; the last member's
/// successor is the first member.
pub open spec fn place_after(at: int, len: int) -> int {
    if at + 1 == len {
        0
    } else {
        at + 1
    }
}

/// The embed of the member that stands at `at` in `ring`. What the request
/// sets goes before what the member's definition sets, and that before the
/// defaults.
pub open spec fn embed_at(
    ring: Seq<(MemberView, Option<Verdict>)>,
    at: int,
    text_color: Option<Seq<char>>,
    border_color: Option<Seq<char>>,
    link_color: Option<Seq<char>>,
    font_size: Option<Seq<char>>,
) -> EmbedView {
    let member = ring[at].0;
    EmbedView {
        name: member.name,
        prev_url: ring[place_before(at, ring.len() as int)].0.url,
        next_url: ring[place_after(at, ring.len() as int)].0.url,
        font_stack: chosen_or(member.font_stack, "monospace"@),
        font_size: chosen_or(font_size, chosen_or(member.font_size, "initial"@)),
        text_color: chosen_or(text_color, member.colors.text),
        border_color: chosen_or(border_color, member.colors.border),
        link_color: chosen_or(link_color, member.colors.links),
        stylesheets: member.stylesheets,
    }
}

/// The embed of the member `slug`, or `None` where the listing holds no such
/// member.
pub open spec fn embed_of(
    listing: Seq<(MemberView, Option<Verdict>)>,
    slug: Seq<char>,
    text_color: Option<Seq<char>>,
    border_color: Option<Seq<char>>,
    link_color: Option<Seq<char>>,
    font_size: Option<Seq<char>>,
) -> Option<EmbedView> {
    let ring = ring_around(listing, slug);
    if exists|at: int| stands_first(ring, slug, at) {
        Some(
            embed_at(
                ring,
                choose|at: int| stands_first(ring, slug, at),
                text_color,
                border_color,
                link_color,
                font_size,
            ),
        )
    } else {
        None
    }
}

/// One member only stands first.
pub proof fn lemma_stands_first_unique(
    ring: Seq<(MemberView, Option<Verdict>)>,
    slug: Seq<char>,
    at: int,
)
    requires
        stands_first(ring, slug, at),
    ensures
        (choose|at: int| stands_first(ring, slug, at)) == at,
{
    let other = choose|at: int| stands_first(ring, slug, at);
    assert(stands_first(ring, slug, other));
    if other < at {
        assert(ring[other].0.slug != slug);
    }
    if at < other {
        assert(ring[at].0.slug != slug);
    }
}

/// Takes what the request sets, or else the fallback.
fn choose_text(choice: &Option<String>, fallback: &String) -> (text: String)
    ensures
        text@ == chosen_or(text_of(*choice), fallback@),
{
    match choice {
        Some(chosen) => chosen.clone(),
        None => fallback.clone(),
    }
}

/// Takes what is set, or else the default.
fn choose_or_default(choice: &Option<String>, default: &str) -> (text: String)
    ensures
        text@ == chosen_or(text_of(*choice), default@),
{
    match choice {
        Some(chosen) => chosen.clone(),
        None => default.to_owned(),
    }
}

/// Lists the places of the listing that take part in the ring around `slug`.
fn ring_places(listing: &Vec<(Member, Option<Health>)>, slug: &String) -> (places: Vec<usize>)
    ensures
        places.len() == ring_around(listing_of(listing@), slug@).len(),
        forall|k: int|
            0 <= k < places.len() ==> (#[trigger] places[k]) < listing.len() && listing_of(
                listing@,
            )[places[k] as int] == ring_around(listing_of(listing@), slug@)[k],
{
    let ghost all = listing_of(listing@);
    let mut places: Vec<usize> = Vec::new();
    let mut at: usize = 0;
    proof {
        lemma_filter_empty::<(MemberView, Option<Verdict>)>(in_ring(slug@));
        assert(all.take(0) =~= Seq::empty());
    }
    while at < listing.len()
        invariant
            all == listing_of(listing@),
            at <= listing.len(),
            places.len() == ring_around(all.take(at as int), slug@).len(),
            forall|k: int|
                0 <= k < places.len() ==> (#[trigger] places[k]) < at && all[places[k] as int]
                    == ring_around(all.take(at as int), slug@)[k],
        decreases listing.len() - at,
    {
        proof {
            lemma_filter_take(all, at as int, in_ring(slug@));
        }
        let entry = &listing[at];
        if is_healthy(&entry.1) || entry.0.slug == *slug {
            places.push(at);
        }
        at += 1;
    }
    assert(all.take(at as int) =~= all);
    places
}

/// Works out what the embed of the member `slug` shows: the member's
/// neighbours in the ring of the members that are alive, and its look.
/// Colours and font size that the request sets go before the member's own.
/// `None` says that the listing holds no member `slug`.
pub fn embed(
    listing: &Vec<(Member, Option<Health>)>,
    slug: &String,
    text_color: &Option<String>,
    border_color: &Option<String>,
    link_color: &Option<String>,
    font_size: &Option<String>,
) -> (shown: Option<Embed>)
    ensures
        match shown {
            Some(embed) => Some(embed@),
            None => None,
        } == embed_of(
            listing_of(listing@),
            slug@,
            text_of(*text_color),
            text_of(*border_color),
            text_of(*link_color),
            text_of(*font_size),
        ),
{
    let ghost ring = ring_around(listing_of(listing@), slug@);
    let places = ring_places(listing, slug);
    let mut at: usize = 0;
    while at < places.len()
        invariant
            ring == ring_around(listing_of(listing@), slug@),
            at <= places.len(),
            places.len() == ring.len(),
            forall|k: int|
                0 <= k < places.len() ==> (#[trigger] places[k]) < listing.len() && listing_of(
                    listing@,
                )[places[k] as int] == ring[k],
            forall|k: int| 0 <= k < at ==> (#[trigger] ring[k]).0.slug != slug@,
        decreases places.len() - at,
    {
        let member = &listing[places[at]].0;
        if member.slug == *slug {
            let before = if at == 0 {
                places.len() - 1
            } else {
                at - 1
            };
            let after = if at + 1 == places.len() {
                0
            } else {
                at + 1
            };
            proof {
                assert(stands_first(ring, slug@, at as int));
                lemma_stands_first_unique(ring, slug@, at as int);
                assert(listing_of(listing@)[places[before as int] as int] == ring[before as int]);
                assert(listing_of(listing@)[places[after as int] as int] == ring[after as int]);
                assert(listing_of(listing@)[places[at as int] as int] == ring[at as int]);
            }
            let fallback_size = choose_or_default(&member.font_size, "initial");
            return Some(
                Embed {
                    name: member.name.clone(),
                    prev_url: listing[places[before]].0.url.clone(),
                    next_url: listing[places[after]].0.url.clone(),
                    font_stack: choose_or_default(&member.font_stack, "monospace"),
                    font_size: choose_text(font_size, &fallback_size),
                    text_color: choose_text(text_color, &member.colors.text),
                    border_color: choose_text(border_color, &member.colors.border),
                    link_color: choose_text(link_color, &member.colors.links),
                    stylesheets: copy_texts(&member.stylesheets),
                },
            );
        }
        at += 1;
    }
    proof {
        assert forall|k: int| !stands_first(ring, slug@, k) by {
            if 0 <= k < ring.len() {
                assert(ring[k].0.slug != slug@);
            }
        }
    }
    None
}

} // verus!
