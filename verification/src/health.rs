//! Liveness classification of a member site from the page it serves.
//!
//! A member is healthy when its page links to the ring's embed address with
//! its own slug. The page body is scanned as plain text; no HTML is parsed.

use vstd::prelude::*;
pub use crate::health_map::HealthMap;
pub use crate::manager::MemberManager;
use crate::text::{chars_of, matches_at, occurs_at, string_of};

verus! {

/// The address every embed link starts with; the member's slug follows it.
pub const URL_PREFIX: &'static str = "https://overengineering.kognise.dev/embed/";

/// The longest slug fragment that is read out of a page, in characters.
pub const FRAGMENT_CAP: usize = 64;

/// Outcome of one liveness probe.
#[derive(Clone)]
pub enum Health {
    Healthy,
    SiteUnreachable,
    SlugMismatch(String),
    NoWebringEmbed,
}

/// Mathematical model of [`Health`].
pub enum Verdict {
    Healthy,
    SiteUnreachable,
    SlugMismatch(Seq<char>),
    NoWebringEmbed,
}

impl View for Health {
    type V = Verdict;

    open spec fn view(&self) -> Verdict {
        match self {
            Health::Healthy => Verdict::Healthy,
            Health::SiteUnreachable => Verdict::SiteUnreachable,
            Health::SlugMismatch(observed) => Verdict::SlugMismatch(observed@),
            Health::NoWebringEmbed => Verdict::NoWebringEmbed,
        }
    }
}

impl Health {
    /// Copies the status.
    pub fn duplicate(&self) -> (copy: Health)
        ensures
            copy@ == self@,
    {
        match self {
            Health::Healthy => Health::Healthy,
            Health::SiteUnreachable => Health::SiteUnreachable,
            Health::SlugMismatch(observed) => Health::SlugMismatch(observed.clone()),
            Health::NoWebringEmbed => Health::NoWebringEmbed,
        }
    }
}

/// The characters of [`URL_PREFIX`].
pub open spec fn url_prefix() -> Seq<char> {
    URL_PREFIX@
}

/// A quote or a question mark ends the slug inside an embed link.
pub open spec fn is_terminator(c: char) -> bool {
    c == '\'' || c == '"' || c == '?'
}

/// The fragment that starts at `start` is `len` characters long: it holds no
/// terminator, and it stops at a terminator, at the end of the text or at the
/// cap, whichever comes first.
pub open spec fn fragment_ends(text: Seq<char>, start: int, len: int) -> bool {
    &&& 0 <= len <= FRAGMENT_CAP
    &&& start + len <= text.len()
    &&& forall|k: int| start <= k < start + len ==> !is_terminator(#[trigger] text[k])
    &&& (len == FRAGMENT_CAP || start + len == text.len() || is_terminator(text[start + len]))
}

/// Length of the fragment that starts at `start`.
pub open spec fn fragment_len(text: Seq<char>, start: int) -> int {
    choose|len: int| fragment_ends(text, start, len)
}

/// The slug written behind the prefix occurrence at `at`.
pub open spec fn embedded_slug(text: Seq<char>, at: int) -> Seq<char> {
    let start = at + url_prefix().len();
    text.subrange(start, start + fragment_len(text, start))
}

/// The prefix stands at `at` and is followed by a slug other than `slug`.
pub open spec fn mismatch_at(text: Seq<char>, slug: Seq<char>, at: int) -> bool {
    occurs_at(text, url_prefix(), at) && embedded_slug(text, at) != slug
}

/// `at` is the leftmost mismatch.
pub open spec fn first_mismatch(text: Seq<char>, slug: Seq<char>, at: int) -> bool {
    &&& mismatch_at(text, slug, at)
    &&& forall|j: int| 0 <= j < at ==> !mismatch_at(text, slug, j)
}

/// Classification of a page body for the member `slug`: the leftmost embed
/// link with a foreign slug decides; otherwise one embed link is enough.
pub open spec fn embed_verdict(text: Seq<char>, slug: Seq<char>) -> Verdict {
    if exists|at: int| mismatch_at(text, slug, at) {
        Verdict::SlugMismatch(
            embedded_slug(text, choose|at: int| first_mismatch(text, slug, at)),
        )
    } else if exists|at: int| occurs_at(text, url_prefix(), at) {
        Verdict::Healthy
    } else {
        Verdict::NoWebringEmbed
    }
}

/// Classification of a probe: `None` stands for a request that failed, timed
/// out or returned a body that is not text.
pub open spec fn probe_verdict(response: Option<Seq<char>>, slug: Seq<char>) -> Verdict {
    match response {
        None => Verdict::SiteUnreachable,
        Some(text) => embed_verdict(text, slug),
    }
}

/// A fragment has one length only.
pub proof fn lemma_fragment_len_unique(text: Seq<char>, start: int, len: int)
    requires
        fragment_ends(text, start, len),
    ensures
        fragment_len(text, start) == len,
{
    let other = fragment_len(text, start);
    assert(fragment_ends(text, start, other));
    if other < len {
        assert(!is_terminator(text[start + other]));
    }
    if len < other {
        assert(!is_terminator(text[start + len]));
    }
}

/// There is one leftmost mismatch only.
pub proof fn lemma_first_mismatch_unique(text: Seq<char>, slug: Seq<char>, at: int)
    requires
        first_mismatch(text, slug, at),
    ensures
        (choose|j: int| first_mismatch(text, slug, j)) == at,
        embed_verdict(text, slug) == Verdict::SlugMismatch(embedded_slug(text, at)),
{
    let other = choose|j: int| first_mismatch(text, slug, j);
    assert(first_mismatch(text, slug, other));
    assert(0 <= other && 0 <= at);
}

/// A page that nowhere holds the embed address has no embed, whatever slug
/// is expected.
pub proof fn lemma_no_prefix_no_embed(text: Seq<char>, slug: Seq<char>)
    requires
        forall|at: int| !occurs_at(text, url_prefix(), at),
    ensures
        embed_verdict(text, slug) == Verdict::NoWebringEmbed,
{
}

/// A page is healthy exactly when it holds an embed link and every embed link
/// on it names the expected slug.
pub proof fn lemma_healthy_page(text: Seq<char>, slug: Seq<char>)
    ensures
        embed_verdict(text, slug) == Verdict::Healthy <==> (exists|at: int|
            occurs_at(text, url_prefix(), at)) && (forall|at: int|
            occurs_at(text, url_prefix(), at) ==> embedded_slug(text, at) == slug),
{
    if exists|at: int| occurs_at(text, url_prefix(), at) {
        if !(forall|at: int| occurs_at(text, url_prefix(), at) ==> embedded_slug(text, at) == slug) {
            let at = choose|at: int|
                occurs_at(text, url_prefix(), at) && embedded_slug(text, at) != slug;
            assert(mismatch_at(text, slug, at));
        }
    }
}

/// Measures the fragment that starts at `start`.
fn measure_fragment(text: &Vec<char>, start: usize) -> (len: usize)
    requires
        start <= text.len(),
    ensures
        len == fragment_len(text@, start as int),
        fragment_ends(text@, start as int, len as int),
{
    let mut len: usize = 0;
    while len < FRAGMENT_CAP && len < text.len() - start && !(text[start + len] == '\''
        || text[start + len] == '"' || text[start + len] == '?')
        invariant
            start <= text.len(),
            len <= FRAGMENT_CAP,
            start + len <= text.len(),
            forall|k: int| start <= k < start + len ==> !is_terminator(#[trigger] text@[k]),
        decreases FRAGMENT_CAP - len,
    {
        len += 1;
    }
    proof {
        lemma_fragment_len_unique(text@, start as int, len as int);
    }
    len
}

/// Tests whether `text[from..from + len]` spells `slug`.
fn spells(text: &Vec<char>, from: usize, len: usize, slug: &Vec<char>) -> (same: bool)
    requires
        from + len <= text.len(),
    ensures
        same == (text@.subrange(from as int, from + len) == slug@),
{
    if len != slug.len() {
        return false;
    }
    let mut k: usize = 0;
    while k < len
        invariant
            k <= len,
            len == slug.len(),
            from + len <= text.len(),
            forall|j: int| 0 <= j < k ==> text@[from + j] == slug@[j],
        decreases len - k,
    {
        if text[from + k] != slug[k] {
            proof {
                let window = text@.subrange(from as int, from + len);
                assert(window[k as int] == text@[from + k]);
            }
            return false;
        }
        k += 1;
    }
    assert(text@.subrange(from as int, from + len) =~= slug@);
    true
}

/// Classifies a page body for the member `slug`.
pub fn scan_embeds(body: &str, slug: &str) -> (health: Health)
    ensures
        health@ == embed_verdict(body@, slug@),
{
    let text = chars_of(body);
    let wanted = chars_of(slug);
    let prefix = chars_of(URL_PREFIX);
    let mut seen = false;
    let mut at: usize = 0;
    while at < text.len()
        invariant
            text@ == body@,
            wanted@ == slug@,
            prefix@ == url_prefix(),
            at <= text.len(),
            forall|j: int| 0 <= j < at ==> !mismatch_at(text@, wanted@, j),
            seen == exists|j: int| 0 <= j < at && occurs_at(text@, prefix@, j),
        decreases text.len() - at,
    {
        if matches_at(&text, &prefix, at) {
            let start = at + prefix.len();
            let len = measure_fragment(&text, start);
            if !spells(&text, start, len, &wanted) {
                proof {
                    assert(first_mismatch(text@, wanted@, at as int));
                    lemma_first_mismatch_unique(text@, wanted@, at as int);
                }
                return Health::SlugMismatch(string_of(&text, start, start + len));
            }
            seen = true;
        }
        at += 1;
    }
    proof {
        assert forall|j: int| !mismatch_at(text@, wanted@, j) by {
            if occurs_at(text@, prefix@, j) && j >= text.len() {
                // the prefix is not empty, so it cannot stand at the end
                reveal_strlit("https://overengineering.kognise.dev/embed/");
            }
        }
        assert(seen == exists|j: int| occurs_at(text@, prefix@, j)) by {
            reveal_strlit("https://overengineering.kognise.dev/embed/");
            if exists|j: int| occurs_at(text@, prefix@, j) {
                let j = choose|j: int| occurs_at(text@, prefix@, j);
                assert(0 <= j < at && occurs_at(text@, prefix@, j));
            }
        }
    }
    if seen {
        Health::Healthy
    } else {
        Health::NoWebringEmbed
    }
}

/// Classifies one probe of a member's site. `response` is the body that the
/// request returned, or `None` where the request failed, timed out or the
/// body could not be decoded.
pub fn check_health(response: Option<&str>, slug: &str) -> (health: Health)
    ensures
        health@ == probe_verdict(
            match response {
                Some(body) => Some(body@),
                None => None,
            },
            slug@,
        ),
{
    match response {
        None => Health::SiteUnreachable,
        Some(body) => scan_embeds(body, slug),
    }
}

} // verus!
