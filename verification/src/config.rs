//! Member definitions: what a member's file says, and the member that is
//! made of it.

use std::collections::hash_map::DefaultHasher;
use std::hash::{Hash, Hasher};
use vstd::prelude::*;
use crate::order::{arranged, is_key_order, is_permutation, items_of, keys_of, sort_by_keys};
use crate::text::{chars_of, string_of};

verus! {

/// The colours that a member's file sets; each may be left out.
#[derive(Debug, Clone)]
pub struct ParsedMemberColors {
    pub text: Option<String>,
    pub border: Option<String>,
    pub links: Option<String>,
    pub on_links: Option<String>,
}

/// The colours of a member's embed, all of them set.
#[derive(Debug, Clone)]
pub struct MemberColors {
    pub text: String,
    pub border: String,
    pub links: String,
    pub on_links: String,
}

/// What a member's file holds.
#[derive(Debug, Clone)]
pub struct ParsedMember {
    pub name: String,
    pub url: String,
    pub colors: Option<ParsedMemberColors>,
    pub font_stack: Option<String>,
    pub font_size: Option<String>,
    pub stylesheets: Option<Vec<String>>,
}

/// A member of the ring.
#[derive(Debug, Clone)]
pub struct Member {
    pub slug: String,
    pub name: String,
    pub url: String,
    pub colors: MemberColors,
    pub font_stack: Option<String>,
    pub font_size: Option<String>,
    pub stylesheets: Vec<String>,
}

/// Mathematical model of [`ParsedMemberColors`].
pub struct ColorChoices {
    pub text: Option<Seq<char>>,
    pub border: Option<Seq<char>>,
    pub links: Option<Seq<char>>,
    pub on_links: Option<Seq<char>>,
}

/// Mathematical model of [`MemberColors`].
pub struct Colors {
    pub text: Seq<char>,
    pub border: Seq<char>,
    pub links: Seq<char>,
    pub on_links: Seq<char>,
}

/// Mathematical model of [`ParsedMember`].
pub struct Definition {
    pub name: Seq<char>,
    pub url: Seq<char>,
    pub colors: Option<ColorChoices>,
    pub font_stack: Option<Seq<char>>,
    pub font_size: Option<Seq<char>>,
    pub stylesheets: Option<Seq<Seq<char>>>,
}

/// Mathematical model of [`Member`].
pub struct MemberView {
    pub slug: Seq<char>,
    pub name: Seq<char>,
    pub url: Seq<char>,
    pub colors: Colors,
    pub font_stack: Option<Seq<char>>,
    pub font_size: Option<Seq<char>>,
    pub stylesheets: Seq<Seq<char>>,
}

/// The characters of a string that may be absent.
pub open spec fn text_of(choice: Option<String>) -> Option<Seq<char>> {
    match choice {
        Some(text) => Some(text@),
        None => None,
    }
}

/// The characters of each string of a list.
pub open spec fn texts_of(list: Seq<String>) -> Seq<Seq<char>> {
    list.map_values(|text: String| text@)
}

impl View for ParsedMemberColors {
    type V = ColorChoices;

    open spec fn view(&self) -> ColorChoices {
        ColorChoices {
            text: text_of(self.text),
            border: text_of(self.border),
            links: text_of(self.links),
            on_links: text_of(self.on_links),
        }
    }
}

impl View for MemberColors {
    type V = Colors;

    open spec fn view(&self) -> Colors {
        Colors {
            text: self.text@,
            border: self.border@,
            links: self.links@,
            on_links: self.on_links@,
        }
    }
}

impl View for ParsedMember {
    type V = Definition;

    open spec fn view(&self) -> Definition {
        Definition {
            name: self.name@,
            url: self.url@,
            colors: match self.colors {
                Some(colors) => Some(colors@),
                None => None,
            },
            font_stack: text_of(self.font_stack),
            font_size: text_of(self.font_size),
            stylesheets: match self.stylesheets {
                Some(list) => Some(texts_of(list@)),
                None => None,
            },
        }
    }
}

impl View for Member {
    type V = MemberView;

    open spec fn view(&self) -> MemberView {
        MemberView {
            slug: self.slug@,
            name: self.name@,
            url: self.url@,
            colors: self.colors@,
            font_stack: text_of(self.font_stack),
            font_size: text_of(self.font_size),
            stylesheets: texts_of(self.stylesheets@),
        }
    }
}

/// The members that a vector of members stands for.
pub open spec fn members_of(members: Seq<Member>) -> Seq<MemberView> {
    members.map_values(|member: Member| member@)
}

/// The colour that is used where a member's file sets none: black text and
/// border, blue links, white text on links.
pub open spec fn default_colors() -> Colors {
    Colors { text: "#000000"@, border: "#000000"@, links: "#0000ee"@, on_links: "#ffffff"@ }
}

/// The chosen value, or the default where nothing was chosen.
pub open spec fn chosen_or(choice: Option<Seq<char>>, default: Seq<char>) -> Seq<char> {
    match choice {
        Some(text) => text,
        None => default,
    }
}

/// The colours of a member whose file sets `from`: each colour that the file
/// leaves out takes its default, independently of the others.
pub open spec fn filled_colors(from: Option<ColorChoices>) -> Colors {
    match from {
        Some(choices) => Colors {
            text: chosen_or(choices.text, default_colors().text),
            border: chosen_or(choices.border, default_colors().border),
            links: chosen_or(choices.links, default_colors().links),
            on_links: chosen_or(choices.on_links, default_colors().on_links),
        },
        None => default_colors(),
    }
}

/// Copies a string that may be absent.
pub fn copy_text(choice: &Option<String>) -> (copy: Option<String>)
    ensures
        text_of(copy) == text_of(*choice),
{
    match choice {
        Some(text) => Some(text.clone()),
        None => None,
    }
}

/// Copies a list of strings.
pub fn copy_texts(list: &Vec<String>) -> (copy: Vec<String>)
    ensures
        texts_of(copy@) == texts_of(list@),
{
    let mut copy: Vec<String> = Vec::new();
    let mut i: usize = 0;
    while i < list.len()
        invariant
            i <= list.len(),
            copy.len() == i,
            forall|k: int| 0 <= k < i ==> (#[trigger] copy[k])@ == list[k]@,
        decreases list.len() - i,
    {
        copy.push(list[i].clone());
        i += 1;
    }
    assert(texts_of(copy@) =~= texts_of(list@));
    copy
}

/// Takes the chosen colour, or the default where none was chosen.
fn choose_color(choice: &Option<String>, default: &str) -> (color: String)
    ensures
        color@ == chosen_or(text_of(*choice), default@),
{
    match choice {
        Some(text) => text.clone(),
        None => default.to_owned(),
    }
}

impl MemberColors {
    /// Completes the colours that a member's file sets with the defaults.
    pub fn fill_empty_from(from: Option<&ParsedMemberColors>) -> (colors: MemberColors)
        ensures
            colors@ == filled_colors(
                match from {
                    Some(choices) => Some(choices@),
                    None => None,
                },
            ),
    {
        match from {
            Some(choices) => MemberColors {
                text: choose_color(&choices.text, "#000000"),
                border: choose_color(&choices.border, "#000000"),
                links: choose_color(&choices.links, "#0000ee"),
                on_links: choose_color(&choices.on_links, "#ffffff"),
            },
            None => MemberColors {
                text: "#000000".to_owned(),
                border: "#000000".to_owned(),
                links: "#0000ee".to_owned(),
                on_links: "#ffffff".to_owned(),
            },
        }
    }
}

/// The name is `len` characters long up to its first dot, or as a whole
/// where it has none.
pub open spec fn stem_ends(name: Seq<char>, len: int) -> bool {
    &&& 0 <= len <= name.len()
    &&& forall|k: int| 0 <= k < len ==> #[trigger] name[k] != '.'
    &&& (len == name.len() || name[len] == '.')
}

/// A member's slug: its file's name up to the first dot.
pub open spec fn slug_of_file(name: Seq<char>) -> Seq<char> {
    name.take(choose|len: int| stem_ends(name, len))
}

/// A name has one stem only.
pub proof fn lemma_stem_unique(name: Seq<char>, len: int)
    requires
        stem_ends(name, len),
    ensures
        slug_of_file(name) == name.take(len),
{
    let other = choose|len: int| stem_ends(name, len);
    assert(stem_ends(name, other));
    if other < len {
        assert(name[other] != '.');
    }
    if len < other {
        assert(name[len] != '.');
    }
}

/// Derives a member's slug from the name of its file.
pub fn slug_of(file_name: &str) -> (slug: String)
    ensures
        slug@ == slug_of_file(file_name@),
{
    let name = chars_of(file_name);
    let mut len: usize = 0;
    while len < name.len() && name[len] != '.'
        invariant
            len <= name.len(),
            forall|k: int| 0 <= k < len ==> #[trigger] name@[k] != '.',
        decreases name.len() - len,
    {
        len += 1;
    }
    proof {
        lemma_stem_unique(name@, len as int);
        assert(name@.take(len as int) =~= name@.subrange(0, len as int));
    }
    string_of(&name, 0, len)
}

/// The member that the file `file_name` with the content `parsed` defines.
pub open spec fn member_from(file_name: Seq<char>, parsed: Definition) -> MemberView {
    MemberView {
        slug: slug_of_file(file_name),
        name: parsed.name,
        url: parsed.url,
        colors: filled_colors(parsed.colors),
        font_stack: parsed.font_stack,
        font_size: parsed.font_size,
        stylesheets: match parsed.stylesheets {
            Some(list) => list,
            None => Seq::empty(),
        },
    }
}

/// Makes the member that a file defines.
pub fn build_member(file_name: &str, parsed: &ParsedMember) -> (member: Member)
    ensures
        member@ == member_from(file_name@, parsed@),
{
    let stylesheets = match &parsed.stylesheets {
        Some(list) => copy_texts(list),
        None => {
            let none: Vec<String> = Vec::new();
            assert(texts_of(none@) =~= Seq::<Seq<char>>::empty());
            none
        },
    };
    Member {
        slug: slug_of(file_name),
        name: parsed.name.clone(),
        url: parsed.url.clone(),
        colors: MemberColors::fill_empty_from(parsed.colors.as_ref()),
        font_stack: copy_text(&parsed.font_stack),
        font_size: copy_text(&parsed.font_size),
        stylesheets,
    }
}

/// Why a directory of files gives no registry.
#[derive(Debug, Clone)]
pub enum LoadError {
    /// The file of this name holds no member definition.
    Malformed(String),
    /// More than one file gives this slug.
    DuplicateSlug(String),
}

/// Mathematical model of [`LoadError`].
pub enum LoadFailure {
    Malformed(Seq<char>),
    DuplicateSlug(Seq<char>),
}

impl View for LoadError {
    type V = LoadFailure;

    open spec fn view(&self) -> LoadFailure {
        match self {
            LoadError::Malformed(file) => LoadFailure::Malformed(file@),
            LoadError::DuplicateSlug(slug) => LoadFailure::DuplicateSlug(slug@),
        }
    }
}

/// File `i` holds no member definition.
pub open spec fn is_malformed(files: Seq<(String, Option<ParsedMember>)>, i: int) -> bool {
    0 <= i < files.len() && (#[trigger] files[i]).1 is None
}

/// File `i` is the first that holds no member definition.
pub open spec fn first_malformed(files: Seq<(String, Option<ParsedMember>)>, i: int) -> bool {
    is_malformed(files, i) && forall|k: int| 0 <= k < i ==> !is_malformed(files, k)
}

/// The slug that file `i` gives.
pub open spec fn slug_at(files: Seq<(String, Option<ParsedMember>)>, i: int) -> Seq<char> {
    slug_of_file(files[i].0@)
}

/// File `j` gives a slug that an earlier file gives too.
pub open spec fn repeats_slug(files: Seq<(String, Option<ParsedMember>)>, j: int) -> bool {
    0 <= j < files.len() && exists|i: int| 0 <= i < j && #[trigger] slug_at(files, i) == slug_at(
        files,
        j,
    )
}

/// File `j` is the first that gives a slug a second time.
pub open spec fn first_repeat(files: Seq<(String, Option<ParsedMember>)>, j: int) -> bool {
    repeats_slug(files, j) && forall|k: int| 0 <= k < j ==> !repeats_slug(files, k)
}

/// Why the files give no registry, or `None` where they give one. Every file
/// has to hold a definition, and no two files may give one slug. The first
/// file without a definition is named; where all hold one, the first slug
/// that comes a second time.
pub open spec fn load_failure(files: Seq<(String, Option<ParsedMember>)>) -> Option<LoadFailure> {
    if exists|i: int| is_malformed(files, i) {
        Some(LoadFailure::Malformed(files[choose|i: int| first_malformed(files, i)].0@))
    } else if exists|j: int| repeats_slug(files, j) {
        Some(LoadFailure::DuplicateSlug(slug_at(files, choose|j: int| first_repeat(files, j))))
    } else {
        None
    }
}

/// The members that a directory of files defines, one for each file, in the
/// order of the files.
pub open spec fn defined_members(files: Seq<(String, Option<ParsedMember>)>) -> Seq<MemberView> {
    Seq::new(files.len(), |i: int| member_from(files[i].0@, files[i].1->0@))
}

/// No two members have one slug.
pub open spec fn slugs_distinct(members: Seq<MemberView>) -> bool {
    forall|a: int, b: int|
        0 <= a < b < members.len() ==> (#[trigger] members[a]).slug != (#[trigger] members[b]).slug
}

/// The first file without a definition decides the failure.
pub proof fn lemma_malformed_fails(files: Seq<(String, Option<ParsedMember>)>, i: int)
    requires
        first_malformed(files, i),
    ensures
        load_failure(files) == Some(LoadFailure::Malformed(files[i].0@)),
{
    let chosen = choose|i: int| first_malformed(files, i);
    assert(first_malformed(files, chosen));
    if chosen < i {
        assert(!is_malformed(files, chosen));
    }
    if i < chosen {
        assert(!is_malformed(files, i));
    }
}

/// Where every file holds a definition, the first repeated slug decides the
/// failure.
pub proof fn lemma_repeat_fails(files: Seq<(String, Option<ParsedMember>)>, j: int)
    requires
        forall|i: int| !is_malformed(files, i),
        first_repeat(files, j),
    ensures
        load_failure(files) == Some(LoadFailure::DuplicateSlug(slug_at(files, j))),
{
    let chosen = choose|j: int| first_repeat(files, j);
    assert(first_repeat(files, chosen));
    if chosen < j {
        assert(!repeats_slug(files, chosen));
    }
    if j < chosen {
        assert(!repeats_slug(files, j));
    }
}

/// Files that give a registry give members of distinct slugs.
pub proof fn lemma_loaded_slugs_distinct(files: Seq<(String, Option<ParsedMember>)>)
    requires
        load_failure(files) is None,
    ensures
        slugs_distinct(defined_members(files)),
{
    let members = defined_members(files);
    assert forall|a: int, b: int| 0 <= a < b < members.len() implies (#[trigger] members[a]).slug != (
    #[trigger] members[b]).slug by {
        if members[a].slug == members[b].slug {
            assert(slug_at(files, a) == slug_at(files, b));
            assert(repeats_slug(files, b));
        }
    }
}

/// Member `j` has the slug of an earlier member.
spec fn has_earlier_twin(members: Seq<Member>, j: int) -> bool {
    exists|i: int| 0 <= i < j && (#[trigger] members[i]).slug@ == members[j].slug@
}

/// Looks for the first member whose slug an earlier member has too.
fn find_repeat(members: &Vec<Member>) -> (found: Option<usize>)
    ensures
        match found {
            Some(j) => {
                &&& j < members.len()
                &&& has_earlier_twin(members@, j as int)
                &&& forall|k: int| 0 <= k < j ==> !has_earlier_twin(members@, k)
            },
            None => forall|k: int| 0 <= k < members.len() ==> !has_earlier_twin(members@, k),
        },
{
    let mut j: usize = 0;
    while j < members.len()
        invariant
            j <= members.len(),
            forall|k: int| 0 <= k < j ==> !has_earlier_twin(members@, k),
        decreases members.len() - j,
    {
        let mut i: usize = 0;
        while i < j
            invariant
                i <= j < members.len(),
                forall|k: int| 0 <= k < j ==> !has_earlier_twin(members@, k),
                forall|e: int| 0 <= e < i ==> (#[trigger] members[e]).slug@ != members[j as int].slug@,
            decreases j - i,
        {
            if members[i].slug == members[j].slug {
                assert(has_earlier_twin(members@, j as int));
                return Some(j);
            }
            i += 1;
        }
        j += 1;
    }
    None
}

/// Makes the members that a directory of files defines, in the order of the
/// files. Each entry is a file's name and what was read of it, `None` where
/// the content is no member definition. The load fails where a file holds no
/// definition, and where two files give one slug.
pub fn collect_members(files: &Vec<(String, Option<ParsedMember>)>) -> (outcome: Result<
    Vec<Member>,
    LoadError,
>)
    ensures
        match outcome {
            Ok(members) => load_failure(files@) is None && members_of(members@) == defined_members(
                files@,
            ),
            Err(error) => load_failure(files@) == Some(error@),
        },
{
    let mut members: Vec<Member> = Vec::new();
    let mut at: usize = 0;
    while at < files.len()
        invariant
            at <= files.len(),
            members.len() == at,
            forall|k: int| 0 <= k < at ==> !is_malformed(files@, k),
            forall|k: int|
                0 <= k < at ==> (#[trigger] members[k])@ == member_from(
                    files[k].0@,
                    files[k].1->0@,
                ),
        decreases files.len() - at,
    {
        match &files[at].1 {
            Some(parsed) => {
                members.push(build_member(files[at].0.as_str(), parsed));
            },
            None => {
                proof {
                    lemma_malformed_fails(files@, at as int);
                }
                return Err(LoadError::Malformed(files[at].0.clone()));
            },
        }
        at += 1;
    }
    assert(members_of(members@) =~= defined_members(files@));
    assert forall|k: int| 0 <= k < files.len() implies (has_earlier_twin(members@, k)
        <==> repeats_slug(files@, k)) by {
        if has_earlier_twin(members@, k) {
            let i = choose|i: int| 0 <= i < k && (#[trigger] members[i]).slug@ == members[k].slug@;
            assert(slug_at(files@, i) == slug_at(files@, k));
        }
        if repeats_slug(files@, k) {
            let i = choose|i: int| 0 <= i < k && #[trigger] slug_at(files@, i) == slug_at(files@, k);
            assert(members[i].slug@ == members[k].slug@);
        }
    }
    match find_repeat(&members) {
        Some(j) => {
            proof {
                lemma_repeat_fails(files@, j as int);
            }
            Err(LoadError::DuplicateSlug(members[j].slug.clone()))
        },
        None => Ok(members),
    }
}

/// `chrono::NaiveDate`, a calendar date. It is carried from the clock to the
/// hasher as it is; nothing is said of what it holds.
#[verifier::external_type_specification]
#[verifier::external_body]
pub struct ExNaiveDate(chrono::NaiveDate);

/// The calendar date of `chrono::Utc::now()`, taken with
/// `DateTime::date_naive`. Nothing is claimed of the date.
#[verifier::external_body]
fn today() -> chrono::NaiveDate {
    chrono::Utc::now().date_naive()
}

/// Feeds a slug and a date to the hasher, through the `Hash` impl of the
/// pair. Nothing is claimed of what the hasher then holds.
#[verifier::external_body]
fn feed_slug_and_day(state: &mut DefaultHasher, slug: &String, day: &chrono::NaiveDate) {
    (slug, *day).hash(state);
}

/// Draws the key by which `slug` is placed in the ring on `day`.
fn daily_key(slug: &String, day: &chrono::NaiveDate) -> u64 {
    let mut state = DefaultHasher::new();
    feed_slug_and_day(&mut state, slug, day);
    state.finish()
}

/// Reads the ring's members out of a directory of files: every file gives
/// one member, and the members come in an order that is drawn anew each day.
/// Each entry of `files` is a file's name and what was read of it, `None`
/// where the content is no member definition. The load fails where a file
/// holds no definition, and where two files give one slug; so the members of
/// a registry have distinct slugs.
pub fn read_members(files: &Vec<(String, Option<ParsedMember>)>) -> (outcome: Result<
    Vec<Member>,
    LoadError,
>)
    ensures
        match outcome {
            Ok(members) => {
                &&& load_failure(files@) is None
                &&& exists|order: Seq<int>|
                    is_permutation(order, files@.len() as int) && members_of(members@) == arranged(
                        defined_members(files@),
                        order,
                    )
                &&& slugs_distinct(members_of(members@))
            },
            Err(error) => load_failure(files@) == Some(error@),
        },
{
    let collected = match collect_members(files) {
        Ok(members) => members,
        Err(error) => {
            return Err(error);
        },
    };
    let day = today();
    let ghost all = collected@;
    let mut keyed: Vec<(u64, Member)> = Vec::new();
    for member in it: collected
        invariant
            it.seq() == all,
            keyed.len() == it.index(),
            forall|k: int| 0 <= k < keyed.len() ==> (#[trigger] keyed[k]).1 == all[k],
    {
        let key = daily_key(&member.slug, &day);
        keyed.push((key, member));
    }
    let ghost entries = keyed@;
    let members = sort_by_keys(keyed);
    proof {
        let order = choose|order: Seq<int>|
            is_key_order(keys_of(entries), order) && members@ == arranged(items_of(entries), order);
        assert(items_of(entries) =~= all);
        assert(members_of(all).len() == files@.len());
        assert(members_of(members@) =~= arranged(defined_members(files@), order));
        lemma_loaded_slugs_distinct(files@);
        let defined = defined_members(files@);
        let shown = members_of(members@);
        assert forall|a: int, b: int| 0 <= a < b < shown.len() implies (#[trigger] shown[a]).slug != (
        #[trigger] shown[b]).slug by {
            assert(order[a] != order[b]);
            if order[a] < order[b] {
                assert(defined[order[a]].slug != defined[order[b]].slug);
            } else {
                assert(defined[order[b]].slug != defined[order[a]].slug);
            }
        }
    }
    Ok(members)
}

} // verus!
