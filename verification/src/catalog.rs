//! Catalogs of fonts: what an entry is, and how entries are found and chosen.

use vstd::prelude::*;
use crate::text;
use crate::text_map::TextMap;

verus! {

/// A font that can be fetched.
#[derive(Debug)]
pub struct FontEntry {
    pub family: String,
    pub variant: String,
    pub ttf_url: String,
    pub license: String,
}

/// The texts of an entry.
pub struct FontView {
    pub family: Seq<char>,
    pub variant: Seq<char>,
    pub ttf_url: Seq<char>,
    pub license: Seq<char>,
}

impl View for FontEntry {
    type V = FontView;

    open spec fn view(&self) -> FontView {
        FontView {
            family: self.family@,
            variant: self.variant@,
            ttf_url: self.ttf_url@,
            license: self.license@,
        }
    }
}

impl Clone for FontEntry {
    fn clone(&self) -> (r: FontEntry)
        ensures
            r@ == self@,
    {
        FontEntry {
            family: self.family.clone(),
            variant: self.variant.clone(),
            ttf_url: self.ttf_url.clone(),
            license: self.license.clone(),
        }
    }
}

/// The texts of each entry.
pub open spec fn entries(fonts: Seq<FontEntry>) -> Seq<FontView> {
    Seq::new(fonts.len(), |i: int| fonts[i]@)
}

/// Two entries name the same font: their families and their variants are the same but for
/// the case of ASCII letters.
pub open spec fn same(a: FontView, b: FontView) -> bool {
    text::lowered(a.family) == text::lowered(b.family) && text::lowered(a.variant)
        == text::lowered(b.variant)
}

/// Whether two entries name the same font.
pub fn same_font(a: &FontEntry, b: &FontEntry) -> (r: bool)
    ensures
        r == same(a@, b@),
{
    text::same_ignoring_case(a.family.as_str(), b.family.as_str()) && text::same_ignoring_case(
        a.variant.as_str(),
        b.variant.as_str(),
    )
}

/// The name of a font and its variant.
pub open spec fn id(e: FontView) -> Seq<char> {
    e.family + "::"@ + e.variant
}

/// The name of a font and its variant.
pub fn font_id(entry: &FontEntry) -> (r: String)
    ensures
        r@ == id(entry@),
{
    let mut out = String::new();
    out.append(entry.family.as_str());
    out.append("::");
    out.append(entry.variant.as_str());
    out
}

/// The family of an entry is `family` but for the case of ASCII letters.
pub open spec fn named(e: FontView, family: Seq<char>) -> bool {
    text::lowered(e.family) == text::lowered(family)
}

/// The entry at `i` is the first of a family.
pub open spec fn first_named(fonts: Seq<FontView>, family: Seq<char>, i: int) -> bool {
    &&& 0 <= i < fonts.len()
    &&& named(fonts[i], family)
    &&& forall|j: int| 0 <= j < i ==> !named(#[trigger] fonts[j], family)
}

/// The first entry of a family, if there is one.
pub fn find_font<'a>(fonts: &'a [FontEntry], family: &str) -> (r: Option<&'a FontEntry>)
    ensures
        match r {
            Some(entry) => exists|i: int|
                first_named(entries(fonts@), family@, i) && *entry == #[trigger] fonts@[i],
            None => forall|i: int|
                0 <= i < fonts@.len() ==> !named(#[trigger] entries(fonts@)[i], family@),
        },
{
    let mut i: usize = 0;
    while i < fonts.len()
        invariant
            i <= fonts.len(),
            forall|j: int| 0 <= j < i ==> !named(#[trigger] entries(fonts@)[j], family@),
        decreases fonts.len() - i,
    {
        assert(entries(fonts@)[i as int] == fonts@[i as int]@);
        if text::same_ignoring_case(fonts[i].family.as_str(), family) {
            assert(first_named(entries(fonts@), family@, i as int));
            return Some(&fonts[i]);
        }
        i = i + 1;
    }
    None
}

/// What a query is compared with: without the white space around it, in small letters.
pub open spec fn normalized(query: Seq<char>) -> Seq<char> {
    text::lowered(text::trim(query))
}

/// The family or the variant of an entry holds the query, whatever the case of ASCII
/// letters.
pub open spec fn matches_query(e: FontView, query: Seq<char>) -> bool {
    text::contains(text::lowered(e.family), normalized(query)) || text::contains(
        text::lowered(e.variant),
        normalized(query),
    )
}

/// The places of the entries that match a query, in order.
pub open spec fn matching(catalog: Seq<FontView>, query: Seq<char>) -> Seq<int>
    decreases catalog.len(),
{
    if catalog.len() == 0 {
        Seq::empty()
    } else if matches_query(catalog.last(), query) {
        matching(catalog.drop_last(), query).push(catalog.len() - 1)
    } else {
        matching(catalog.drop_last(), query)
    }
}

/// Places as mathematical numbers.
pub open spec fn places(v: Seq<usize>) -> Seq<int> {
    Seq::new(v.len(), |i: int| v[i] as int)
}

/// The places of the entries that match a query, in order; all of them for a blank query.
pub fn filter_fonts(catalog: &[FontEntry], query: &str) -> (r: Vec<usize>)
    ensures
        places(r@) == matching(entries(catalog@), query@),
{
    let wanted = text::lower_text(text::trim_text(query).as_str());
    let ghost all = entries(catalog@);
    let mut out: Vec<usize> = Vec::new();
    let mut i: usize = 0;
    assert(places(out@) == Seq::<int>::empty());
    while i < catalog.len()
        invariant
            i <= catalog.len(),
            all == entries(catalog@),
            wanted@ == normalized(query@),
            places(out@) == matching(all.subrange(0, i as int), query@),
        decreases catalog.len() - i,
    {
        let ghost before = places(out@);
        let ghost part = all.subrange(0, i + 1);
        assert(part.drop_last() == all.subrange(0, i as int));
        assert(part.last() == catalog@[i as int]@);
        let family = text::lower_text(catalog[i].family.as_str());
        let variant = text::lower_text(catalog[i].variant.as_str());
        if text::contains_text(family.as_str(), wanted.as_str()) || text::contains_text(
            variant.as_str(),
            wanted.as_str(),
        ) {
            out.push(i);
            assert(places(out@) == before.push(i as int));
        }
        i = i + 1;
    }
    assert(all.subrange(0, all.len() as int) == all);
    out
}

/// What is shown of an entry after its family.
pub open spec fn details(e: FontView) -> Seq<char> {
    "["@ + e.variant + "] ("@ + e.license + ")"@
}

/// What is shown of an entry after its family: its variant and its license.
pub fn font_details(entry: &FontEntry) -> (r: String)
    ensures
        r@ == details(entry@),
{
    let mut out = String::new();
    out.append("[");
    out.append(entry.variant.as_str());
    out.append("] (");
    out.append(entry.license.as_str());
    out.append(")");
    out
}

/// The place at which an entry stands in the list of fonts once it is chosen: that of the
/// first entry for the same font, or the end of the list.
pub open spec fn chosen_place(fonts: Seq<FontView>, found: FontView) -> nat
    decreases fonts.len(),
{
    if fonts.len() == 0 || same(fonts[0], found) {
        0
    } else {
        1 + chosen_place(fonts.subrange(1, fonts.len() as int), found)
    }
}

/// `chosen_place` is the first entry for the same font, or the end.
pub proof fn lemma_chosen_place(fonts: Seq<FontView>, found: FontView)
    ensures
        chosen_place(fonts, found) <= fonts.len(),
        forall|i: int|
            0 <= i < chosen_place(fonts, found) ==> !same(#[trigger] fonts[i], found),
        chosen_place(fonts, found) < fonts.len() ==> same(
            fonts[chosen_place(fonts, found) as int],
            found,
        ),
    decreases fonts.len(),
{
    if fonts.len() > 0 && !same(fonts[0], found) {
        let rest = fonts.subrange(1, fonts.len() as int);
        lemma_chosen_place(rest, found);
        assert forall|i: int| 0 <= i < chosen_place(fonts, found) implies !same(
            #[trigger] fonts[i],
            found,
        ) by {
            if i > 0 {
                assert(rest[i - 1] == fonts[i]);
            }
        }
    }
}

/// The list of fonts once an entry is chosen: with that entry at its end, unless it holds
/// one for the same font.
pub open spec fn fonts_with(fonts: Seq<FontView>, found: FontView) -> Seq<FontView> {
    if chosen_place(fonts, found) < fonts.len() {
        fonts
    } else {
        fonts.push(found)
    }
}

/// What is said when an entry is chosen.
pub open spec fn chosen_message(fonts: Seq<FontView>, found: FontView) -> Seq<char> {
    if chosen_place(fonts, found) < fonts.len() {
        "selected "@ + found.family
    } else {
        "added "@ + found.family
    }
}

/// Selects the entry that is in the list for the font of `found`, or adds `found` to the
/// list and selects it. Previews are made anew.
pub fn select_or_add_font(
    found: &FontEntry,
    browser_fonts: &mut Vec<FontEntry>,
    selected: &mut usize,
    message: &mut String,
    preview_cache: &mut TextMap,
)
    ensures
        entries(final(browser_fonts)@) == fonts_with(entries(old(browser_fonts)@), found@),
        *final(selected) == chosen_place(entries(old(browser_fonts)@), found@),
        final(message)@ == chosen_message(entries(old(browser_fonts)@), found@),
        final(preview_cache)@ == Map::<Seq<char>, Seq<char>>::empty(),
{
    let ghost fonts = entries(browser_fonts@);
    proof {
        lemma_chosen_place(fonts, found@);
    }
    let mut i: usize = 0;
    while i < browser_fonts.len() && !same_font(&browser_fonts[i], found)
        invariant
            i <= browser_fonts.len(),
            fonts == entries(browser_fonts@),
            forall|j: int| 0 <= j < i ==> !same(#[trigger] fonts[j], found@),
        decreases browser_fonts.len() - i,
    {
        assert(fonts[i as int] == browser_fonts[i as int]@);
        i = i + 1;
    }
    if i < browser_fonts.len() {
        assert(same(fonts[i as int], found@));
    }
    assert(i == chosen_place(fonts, found@));
    let mut said = String::new();
    if i < browser_fonts.len() {
        said.append("selected ");
    } else {
        browser_fonts.push(found.clone());
        assert(entries(browser_fonts@) == fonts.push(found@));
        said.append("added ");
    }
    said.append(found.family.as_str());
    *selected = i;
    *message = said;
    preview_cache.clear();
}

/// Where the bytes of a font are to be had.
pub enum FontSource<'a> {
    /// From an entry of the catalog.
    Catalog(&'a FontEntry),
    /// From the local file that was given.
    File,
}

/// Why there is no source of a font.
#[derive(Debug)]
pub enum FontSourceError {
    /// The catalog has no font of this family.
    NotFound { name: String },
    /// Neither a family nor a file was given, or both were.
    NotExactlyOne,
}

impl FontSourceError {
    /// The error in words.
    pub fn message(&self) -> (r: String)
        ensures
            r@ == match *self {
                FontSourceError::NotFound { name } => "font '"@ + name@
                    + "' not found in catalog"@,
                FontSourceError::NotExactlyOne => "provide exactly one font source"@,
            },
    {
        match self {
            FontSourceError::NotFound { name } => {
                let mut out = String::new();
                out.append("font '");
                out.append(name.as_str());
                out.append("' not found in catalog");
                out
            },
            FontSourceError::NotExactlyOne => "provide exactly one font source".to_owned(),
        }
    }
}

/// Decides where a font comes from: from the catalog where only a family is given, from a
/// local file where only a file is given.
pub fn resolve_font_source<'a>(
    fonts: &'a [FontEntry],
    family: Option<&str>,
    file_given: bool,
) -> (r: Result<FontSource<'a>, FontSourceError>)
    ensures
        match r {
            Ok(FontSource::Catalog(entry)) => !file_given && family is Some && exists|i: int|
                first_named(entries(fonts@), family->0@, i) && *entry == #[trigger] fonts@[i],
            Ok(FontSource::File) => file_given && family is None,
            Err(FontSourceError::NotFound { name }) => {
                &&& !file_given && family is Some
                &&& name@ == family->0@
                &&& forall|i: int|
                    0 <= i < fonts@.len() ==> !named(#[trigger] entries(fonts@)[i], family->0@)
            },
            Err(FontSourceError::NotExactlyOne) => file_given == family is Some,
        },
{
    match family {
        Some(name) => if file_given {
            Err(FontSourceError::NotExactlyOne)
        } else {
            match find_font(fonts, name) {
                Some(entry) => Ok(FontSource::Catalog(entry)),
                None => Err(FontSourceError::NotFound { name: name.to_owned() }),
            }
        },
        None => if file_given {
            Ok(FontSource::File)
        } else {
            Err(FontSourceError::NotExactlyOne)
        },
    }
}

/// Why there is no catalog.
#[derive(Debug)]
pub enum CatalogError {
    /// The catalog that comes with the tool has no fonts.
    BundledEmpty,
    /// The catalog that was fetched has no fonts.
    OnlineEmpty,
    /// The browser was given no fonts.
    Empty,
    /// The catalog could not be fetched.
    Unavailable { reason: String },
}

impl CatalogError {
    /// The error in words.
    pub fn message(&self) -> (r: String)
        ensures
            r@ == match *self {
                CatalogError::BundledEmpty => "bundled catalog is empty"@,
                CatalogError::OnlineEmpty => "online catalog is empty"@,
                CatalogError::Empty => "catalog is empty"@,
                CatalogError::Unavailable { reason } => reason@,
            },
    {
        match self {
            CatalogError::BundledEmpty => "bundled catalog is empty".to_owned(),
            CatalogError::OnlineEmpty => "online catalog is empty".to_owned(),
            CatalogError::Empty => "catalog is empty".to_owned(),
            CatalogError::Unavailable { reason } => reason.clone(),
        }
    }
}

/// The fonts that come with the tool.
#[derive(Debug)]
pub struct CatalogFile {
    pub fonts: Vec<FontEntry>,
}

/// Accepts the catalog that comes with the tool unless it has no fonts.
pub fn load_catalog(parsed: CatalogFile) -> (r: Result<CatalogFile, CatalogError>)
    ensures
        match r {
            Ok(catalog) => catalog == parsed && parsed.fonts@.len() > 0,
            Err(e) => e is BundledEmpty && parsed.fonts@.len() == 0,
        },
{
    if parsed.fonts.len() == 0 {
        Err(CatalogError::BundledEmpty)
    } else {
        Ok(parsed)
    }
}

/// The fonts of the online catalog. What was fetched counts only where none was kept
/// before, and is kept unless it failed or has no fonts.
pub fn ensure_online_catalog_loaded(
    cache: &mut Option<Vec<FontEntry>>,
    fetched: Result<Vec<FontEntry>, String>,
) -> (r: Result<&[FontEntry], CatalogError>)
    ensures
        match *old(cache) {
            Some(fonts) => r matches Ok(slice) && slice@ == fonts@ && *final(cache) == *old(cache),
            None => match fetched {
                Ok(fonts) => if fonts@.len() == 0 {
                    r matches Err(CatalogError::OnlineEmpty) && *final(cache) is None
                } else {
                    r matches Ok(slice) && slice@ == fonts@ && *final(cache) == Some(fonts)
                },
                Err(reason) => {
                    &&& r matches Err(CatalogError::Unavailable { reason: said })
                    &&& said@ == reason@
                    &&& *final(cache) is None
                },
            },
        },
{
    if cache.is_none() {
        match fetched {
            Ok(fonts) => {
                if fonts.len() == 0 {
                    return Err(CatalogError::OnlineEmpty);
                }
                *cache = Some(fonts);
            },
            Err(reason) => {
                return Err(CatalogError::Unavailable { reason });
            },
        }
    }
    match cache {
        Some(fonts) => Ok(fonts.as_slice()),
        None => Ok(&[]),
    }
}

/// To name the same font is an equivalence.
pub proof fn law_same_is_an_equivalence(a: FontView, b: FontView, c: FontView)
    ensures
        same(a, a),
        same(a, b) ==> same(b, a),
        same(a, b) && same(b, c) ==> same(a, c),
{
}

/// A search gives the places of exactly the entries that match, each once, in order.
pub proof fn law_search_is_exact(catalog: Seq<FontView>, query: Seq<char>)
    ensures
        forall|k: int|
            0 <= k < matching(catalog, query).len() ==> {
                &&& 0 <= (#[trigger] matching(catalog, query)[k]) < catalog.len()
                &&& matches_query(catalog[matching(catalog, query)[k]], query)
            },
        forall|k: int, l: int|
            0 <= k < l < matching(catalog, query).len() ==> matching(catalog, query)[k] < matching(
                catalog,
                query,
            )[l],
        forall|i: int|
            0 <= i < catalog.len() && matches_query(#[trigger] catalog[i], query) ==> matching(
                catalog,
                query,
            ).contains(i),
    decreases catalog.len(),
{
    if catalog.len() > 0 {
        let rest = catalog.drop_last();
        let before = matching(rest, query);
        let now = matching(catalog, query);
        law_search_is_exact(rest, query);
        assert forall|k: int| 0 <= k < now.len() implies {
            &&& 0 <= (#[trigger] now[k]) < catalog.len()
            &&& matches_query(catalog[now[k]], query)
        } by {
            if k < before.len() {
                assert(now[k] == before[k]);
                assert(rest[before[k]] == catalog[now[k]]);
            }
        }
        assert forall|i: int| 0 <= i < catalog.len() && matches_query(
            #[trigger] catalog[i],
            query,
        ) implies now.contains(i) by {
            if i < rest.len() {
                assert(rest[i] == catalog[i]);
                let k = choose|k: int| 0 <= k < before.len() && before[k] == i;
                assert(now[k] == i);
            } else {
                assert(now[now.len() - 1] == i);
            }
        }
    }
}

/// A query of nothing but white space finds every entry.
pub proof fn law_blank_query_finds_all(catalog: Seq<FontView>, query: Seq<char>)
    requires
        text::trim(query).len() == 0,
    ensures
        matching(catalog, query) == Seq::new(catalog.len(), |i: int| i),
    decreases catalog.len(),
{
    if catalog.len() > 0 {
        law_blank_query_finds_all(catalog.drop_last(), query);
        let none = normalized(query);
        let family = text::lowered(catalog.last().family);
        assert(family.subrange(0, 0) =~= none);
        assert(text::occurs_at(family, none, 0));
        assert(matches_query(catalog.last(), query));
        assert(Seq::new(catalog.len(), |i: int| i) =~= Seq::new(
            (catalog.len() - 1) as nat,
            |i: int| i,
        ).push(catalog.len() - 1));
    }
}

/// The case of a query's ASCII letters does not matter.
pub proof fn law_search_ignores_case(catalog: Seq<FontView>, query: Seq<char>)
    ensures
        matching(catalog, text::lowered(query)) == matching(catalog, query),
    decreases catalog.len(),
{
    text::law_trim_and_lower(query);
    text::law_lowered_twice(text::trim(query));
    assert(normalized(text::lowered(query)) == normalized(query));
    if catalog.len() > 0 {
        law_search_ignores_case(catalog.drop_last(), query);
    }
}

/// Once an entry is chosen, the entry that is selected names its font, and every entry
/// that was in the list is still at its place.
pub proof fn law_choosing_selects(fonts: Seq<FontView>, found: FontView)
    ensures
        chosen_place(fonts, found) < fonts_with(fonts, found).len(),
        same(fonts_with(fonts, found)[chosen_place(fonts, found) as int], found),
        fonts.len() <= fonts_with(fonts, found).len() <= fonts.len() + 1,
        forall|i: int| 0 <= i < fonts.len() ==> fonts_with(fonts, found)[i] == fonts[i],
{
    lemma_chosen_place(fonts, found);
}

/// Choosing an entry for a font that was just chosen selects the same place and adds
/// nothing.
pub proof fn law_choosing_twice(fonts: Seq<FontView>, found: FontView, again: FontView)
    requires
        same(found, again),
    ensures
        fonts_with(fonts_with(fonts, found), again) == fonts_with(fonts, found),
        chosen_place(fonts_with(fonts, found), again) == chosen_place(fonts, found),
{
    let after = fonts_with(fonts, found);
    let k = chosen_place(fonts, found) as int;
    lemma_chosen_place(fonts, found);
    lemma_chosen_place(after, again);
    law_choosing_selects(fonts, found);
    assert(same(after[k], again));
    assert forall|i: int| 0 <= i < k implies !same(#[trigger] after[i], again) by {
        assert(after[i] == fonts[i]);
    }
}

/// No two entries of a list name the same font.
pub open spec fn no_duplicates(fonts: Seq<FontView>) -> bool {
    forall|i: int, j: int| 0 <= i < j < fonts.len() ==> !same(#[trigger] fonts[i], #[trigger] fonts[j])
}

/// Choosing an entry never brings a font into the list a second time.
pub proof fn law_choosing_adds_no_duplicate(fonts: Seq<FontView>, found: FontView)
    requires
        no_duplicates(fonts),
    ensures
        no_duplicates(fonts_with(fonts, found)),
{
    lemma_chosen_place(fonts, found);
}

/// Two texts are the same, character by character, but for the case of ASCII letters.
pub open spec fn alike(a: Seq<char>, b: Seq<char>) -> bool {
    a.len() == b.len() && forall|i: int|
        0 <= i < a.len() ==> text::lower(#[trigger] a[i]) == text::lower(b[i])
}

proof fn lemma_alike(a: Seq<char>, b: Seq<char>)
    ensures
        alike(a, b) <==> text::lowered(a) == text::lowered(b),
{
    let x = text::lowered(a);
    let y = text::lowered(b);
    if alike(a, b) {
        assert(x =~= y);
    }
    if x == y {
        assert(a.len() == x.len() && b.len() == y.len());
        assert forall|i: int| 0 <= i < a.len() implies text::lower(#[trigger] a[i]) == text::lower(
            b[i],
        ) by {
            assert(x[i] == y[i]);
        }
    }
}

/// Two entries name the same font where their families are alike and their variants are
/// alike; their addresses and licenses do not matter. An entry is of a family where its own
/// family is like that one.
pub proof fn law_same_font(a: FontView, b: FontView)
    ensures
        same(a, b) <==> alike(a.family, b.family) && alike(a.variant, b.variant),
        named(a, b.family) <==> alike(a.family, b.family),
{
    lemma_alike(a.family, b.family);
    lemma_alike(a.variant, b.variant);
}

/// The first entry of a family is of that family, and every entry of that family is it or
/// stands behind it. Where there is an entry of the family, one is the first.
pub proof fn law_first_of_a_family(fonts: Seq<FontView>, family: Seq<char>, i: int, j: int)
    requires
        0 <= j < fonts.len(),
        alike(fonts[j].family, family),
    ensures
        first_named(fonts, family, i) ==> 0 <= i <= j && alike(fonts[i].family, family),
        exists|k: int| first_named(fonts, family, k),
    decreases j,
{
    lemma_alike(fonts[j].family, family);
    if 0 <= i < fonts.len() {
        lemma_alike(fonts[i].family, family);
    }
    if exists|k: int| 0 <= k < j && named(#[trigger] fonts[k], family) {
        let k = choose|k: int| 0 <= k < j && named(#[trigger] fonts[k], family);
        lemma_alike(fonts[k].family, family);
        law_first_of_a_family(fonts, family, i, k);
    } else {
        assert(first_named(fonts, family, j));
    }
}

/// The name of a font starts with its family and ends with its variant, with two colons
/// between them.
pub proof fn law_id(e: FontView)
    ensures
        id(e).len() == e.family.len() + 2 + e.variant.len(),
        id(e).subrange(0, e.family.len() as int) == e.family,
        id(e)[e.family.len() as int] == ':' && id(e)[e.family.len() as int + 1] == ':',
        id(e).subrange(e.family.len() as int + 2, id(e).len() as int) == e.variant,
{
    reveal_strlit("::");
    assert(id(e).subrange(0, e.family.len() as int) =~= e.family);
    assert(id(e).subrange(e.family.len() as int + 2, id(e).len() as int) =~= e.variant);
}

/// The variant stands in square brackets behind the family, and the license in round ones
/// behind it.
pub proof fn law_details(e: FontView)
    ensures
        details(e) == seq!['['] + e.variant + seq![']', ' ', '('] + e.license + seq![')'],
{
    reveal_strlit("[");
    reveal_strlit("] (");
    reveal_strlit(")");
    assert(details(e) =~= seq!['['] + e.variant + seq![']', ' ', '('] + e.license + seq![')']);
}

/// A text holds another one at a place, but for the case of ASCII letters.
pub open spec fn alike_at(s: Seq<char>, part: Seq<char>, i: int) -> bool {
    0 <= i && i + part.len() <= s.len() && forall|k: int|
        0 <= k < part.len() ==> text::lower(#[trigger] part[k]) == text::lower(s[i + k])
}

proof fn lemma_alike_at(s: Seq<char>, part: Seq<char>, i: int)
    ensures
        text::occurs_at(text::lowered(s), text::lowered(part), i) <==> alike_at(s, part, i),
{
    let x = text::lowered(s);
    let y = text::lowered(part);
    if text::occurs_at(x, y, i) {
        assert forall|k: int| 0 <= k < part.len() implies text::lower(#[trigger] part[k])
            == text::lower(s[i + k]) by {
            assert(x.subrange(i, i + y.len())[k] == y[k]);
        }
    }
    if alike_at(s, part, i) {
        assert(x.subrange(i, i + y.len()) =~= y);
    }
}

/// An entry matches a query where, at some place, its family or its variant goes on like the
/// query without the white space around it, but for the case of ASCII letters.
pub proof fn law_query_is_looked_for_in_names(e: FontView, query: Seq<char>)
    ensures
        matches_query(e, query) <==> {
            ||| exists|i: int| alike_at(e.family, text::trim(query), i)
            ||| exists|i: int| alike_at(e.variant, text::trim(query), i)
        },
{
    lemma_alike_somewhere(e.family, text::trim(query));
    lemma_alike_somewhere(e.variant, text::trim(query));
}

proof fn lemma_alike_somewhere(s: Seq<char>, part: Seq<char>)
    ensures
        text::contains(text::lowered(s), text::lowered(part)) <==> exists|i: int|
            alike_at(s, part, i),
{
    if text::contains(text::lowered(s), text::lowered(part)) {
        let i = choose|i: int| text::occurs_at(text::lowered(s), text::lowered(part), i);
        lemma_alike_at(s, part, i);
    }
    if exists|i: int| alike_at(s, part, i) {
        let i = choose|i: int| alike_at(s, part, i);
        lemma_alike_at(s, part, i);
    }
}

/// More entries at the end of a catalog change nothing about what is found before them.
pub proof fn law_search_of_a_longer_catalog(
    catalog: Seq<FontView>,
    more: Seq<FontView>,
    query: Seq<char>,
)
    ensures
        matching(catalog + more, query).len() >= matching(catalog, query).len(),
        matching(catalog + more, query).subrange(0, matching(catalog, query).len() as int)
            == matching(catalog, query),
    decreases more.len(),
{
    if more.len() > 0 {
        law_search_of_a_longer_catalog(catalog, more.drop_last(), query);
        assert((catalog + more).drop_last() == catalog + more.drop_last());
        let shorter = matching(catalog + more.drop_last(), query);
        let n = matching(catalog, query).len() as int;
        assert(matching(catalog + more, query).subrange(0, n) =~= shorter.subrange(0, n));
    } else {
        assert(catalog + more == catalog);
        assert(matching(catalog, query).subrange(0, matching(catalog, query).len() as int)
            =~= matching(catalog, query));
    }
}

/// Choosing an entry changes nothing in a list that has its font, and selects the first entry
/// for it; it puts the entry itself at the end of any other list, and selects it there. What
/// is said tells the two apart, and names the family of the entry that was chosen.
pub proof fn law_choosing(fonts: Seq<FontView>, found: FontView, i: int)
    ensures
        0 <= i < fonts.len() && alike(fonts[i].family, found.family) && alike(
            fonts[i].variant,
            found.variant,
        ) ==> {
            &&& fonts_with(fonts, found) == fonts
            &&& chosen_place(fonts, found) <= i
            &&& same(fonts[chosen_place(fonts, found) as int], found)
            &&& chosen_message(fonts, found) == "selected "@ + found.family
        },
        (forall|k: int| 0 <= k < fonts.len() ==> !same(#[trigger] fonts[k], found)) ==> {
            &&& fonts_with(fonts, found) == fonts.push(found)
            &&& chosen_place(fonts, found) == fonts.len()
            &&& chosen_message(fonts, found) == "added "@ + found.family
        },
{
    lemma_chosen_place(fonts, found);
    if 0 <= i < fonts.len() {
        law_same_font(fonts[i], found);
    }
}

/// Entries are seen with all of their texts, each at its place, and so are places.
pub proof fn law_entries(fonts: Seq<FontEntry>, numbers: Seq<usize>, i: int)
    ensures
        entries(fonts).len() == fonts.len(),
        places(numbers).len() == numbers.len(),
        0 <= i < fonts.len() ==> {
            &&& entries(fonts)[i].family == fonts[i].family@
            &&& entries(fonts)[i].variant == fonts[i].variant@
            &&& entries(fonts)[i].ttf_url == fonts[i].ttf_url@
            &&& entries(fonts)[i].license == fonts[i].license@
        },
        0 <= i < numbers.len() ==> places(numbers)[i] == numbers[i],
{
}

} // verus!
