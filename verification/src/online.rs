//! The online catalog: from the answer of the web service to a list of fonts.

use vstd::hash_set::StringHashSet;
use vstd::prelude::*;
use crate::catalog;
use crate::catalog::{FontEntry, FontView};
use crate::text;
use crate::text_map::TextMap;

verus! {

/// One family of the web service's answer.
pub struct GoogleWebfontItem {
    pub family: String,
    pub variants: Vec<String>,
    /// The address of the file of each variant.
    pub files: TextMap,
    pub license: String,
}

/// The web service's answer.
pub struct GoogleWebfontsResponse {
    pub items: Vec<GoogleWebfontItem>,
}

/// The texts of an item.
pub struct ItemView {
    pub family: Seq<char>,
    pub variants: Seq<Seq<char>>,
    pub files: Map<Seq<char>, Seq<char>>,
    pub license: Seq<char>,
}

impl View for GoogleWebfontItem {
    type V = ItemView;

    open spec fn view(&self) -> ItemView {
        ItemView {
            family: self.family@,
            variants: text::texts(self.variants@),
            files: self.files@,
            license: self.license@,
        }
    }
}

/// The texts of each item.
pub open spec fn item_views(items: Seq<GoogleWebfontItem>) -> Seq<ItemView> {
    Seq::new(items.len(), |i: int| items[i]@)
}

/// The address that the catalog is asked from.
pub open spec fn request_url(api_key: Seq<char>) -> Seq<char> {
    "https://www.googleapis.com/webfonts/v1/webfonts?sort=popularity&key="@ + api_key
}

/// The address that the catalog is asked from with a key.
pub fn catalog_request_url(api_key: &str) -> (r: String)
    ensures
        r@ == request_url(api_key@),
{
    let mut out = String::new();
    out.append("https://www.googleapis.com/webfonts/v1/webfonts?sort=popularity&key=");
    out.append(api_key);
    out
}

/// The license of an item; a blank one is not known.
pub open spec fn license_of(item: ItemView) -> Seq<char> {
    if text::trim(item.license).len() == 0 {
        "Unknown"@
    } else {
        item.license
    }
}

/// The variant of an item that is taken: the regular one, else the first, and the regular
/// one where none is given.
pub open spec fn variant_of(item: ItemView) -> Seq<char> {
    if item.variants.len() == 0 || item.variants.contains("regular"@) {
        "regular"@
    } else {
        item.variants[0]
    }
}

/// The font that an item offers: none where it has no file of the variant that is taken.
pub open spec fn offered(item: ItemView) -> Option<FontView> {
    if item.files.contains_key(variant_of(item)) {
        Some(
            FontView {
                family: item.family,
                variant: variant_of(item),
                ttf_url: text::with_first_replaced(
                    item.files[variant_of(item)],
                    "http://"@,
                    "https://"@,
                ),
                license: license_of(item),
            },
        )
    } else {
        None
    }
}

/// What tells two fonts of the online catalog apart.
pub open spec fn online_id(e: FontView) -> Seq<char> {
    text::lowered(e.family) + "::"@ + text::lowered(e.variant)
}

/// Some font of a list has an id.
pub open spec fn seen(fonts: Seq<FontView>, wanted: Seq<char>) -> bool {
    exists|i: int| 0 <= i < fonts.len() && online_id(#[trigger] fonts[i]) == wanted
}

/// The fonts that the items offer, in their order; of those with one id only the first.
pub open spec fn listed(items: Seq<ItemView>) -> Seq<FontView>
    decreases items.len(),
{
    if items.len() == 0 {
        Seq::empty()
    } else {
        let before = listed(items.drop_last());
        match offered(items.last()) {
            Some(e) => if seen(before, online_id(e)) {
                before
            } else {
                before.push(e)
            },
            None => before,
        }
    }
}

/// A font stands before another: by its family, then by its variant.
pub open spec fn font_before(a: FontView, b: FontView) -> bool {
    text::text_before(a.family, b.family) || (a.family == b.family && text::text_before(
        a.variant,
        b.variant,
    ))
}

/// Each font stands before those that follow it.
pub open spec fn in_order(fonts: Seq<FontView>) -> bool {
    forall|i: int, j: int|
        0 <= i < j < fonts.len() ==> font_before(#[trigger] fonts[i], #[trigger] fonts[j])
}

/// No two fonts have one id.
pub open spec fn ids_differ(fonts: Seq<FontView>) -> bool {
    forall|i: int, j: int|
        0 <= i < j < fonts.len() ==> online_id(#[trigger] fonts[i]) != online_id(
            #[trigger] fonts[j],
        )
}

/// The fonts of a list have ids of their own.
pub proof fn law_listed_ids_differ(items: Seq<ItemView>)
    ensures
        ids_differ(listed(items)),
    decreases items.len(),
{
    if items.len() > 0 {
        law_listed_ids_differ(items.drop_last());
    }
}

/// Every font of the list is what one of the items offers.
pub proof fn law_listed_are_offered(items: Seq<ItemView>, k: int)
    requires
        0 <= k < listed(items).len(),
    ensures
        exists|i: int| 0 <= i < items.len() && offered(#[trigger] items[i]) == Some(
            listed(items)[k],
        ),
    decreases items.len(),
{
    let rest = items.drop_last();
    if k < listed(rest).len() {
        law_listed_are_offered(rest, k);
        let i = choose|i: int| 0 <= i < rest.len() && offered(#[trigger] rest[i]) == Some(
            listed(rest)[k],
        );
        assert(items[i] == rest[i]);
    } else {
        assert(offered(items[items.len() - 1]) == Some(listed(items)[k]));
    }
}

/// Every item that offers a font is in the list with it, or with an earlier one of its id.
pub proof fn law_offers_are_listed(items: Seq<ItemView>, i: int)
    requires
        0 <= i < items.len(),
        offered(items[i]) is Some,
    ensures
        seen(listed(items), online_id(offered(items[i])->0)),
    decreases items.len(),
{
    let rest = items.drop_last();
    let wanted = online_id(offered(items[i])->0);
    if i < rest.len() {
        assert(rest[i] == items[i]);
        law_offers_are_listed(rest, i);
        let k = choose|k: int|
            0 <= k < listed(rest).len() && online_id(#[trigger] listed(rest)[k]) == wanted;
        assert(listed(items)[k] == listed(rest)[k]);
    } else if !seen(listed(rest), wanted) {
        let now = listed(items);
        assert(online_id(now[now.len() - 1]) == wanted);
    }
}

proof fn lemma_font_order(a: FontView, b: FontView, c: FontView)
    ensures
        !font_before(a, a),
        online_id(a) != online_id(b) ==> font_before(a, b) != font_before(b, a),
        font_before(a, b) && font_before(b, c) ==> font_before(a, c),
{
    text::law_text_order(a.family, b.family, c.family);
    text::law_text_order(a.variant, b.variant, c.variant);
    text::law_text_order(b.family, c.family, a.family);
}

/// Whether a font stands before another.
fn is_font_before(a: &FontEntry, b: &FontEntry) -> (r: bool)
    ensures
        r == font_before(a@, b@),
{
    text::is_text_before(a.family.as_str(), b.family.as_str()) || (text::same_text(
        a.family.as_str(),
        b.family.as_str(),
    ) && text::is_text_before(a.variant.as_str(), b.variant.as_str()))
}

/// The license of an item.
fn license_text(item: &GoogleWebfontItem) -> (r: String)
    ensures
        r@ == license_of(item@),
{
    if text::trim_text(item.license.as_str()).as_str().is_empty() {
        "Unknown".to_owned()
    } else {
        item.license.clone()
    }
}

/// The variant of an item that is taken.
fn variant_text(item: &GoogleWebfontItem) -> (r: String)
    ensures
        r@ == variant_of(item@),
{
    let ghost all = item@.variants;
    let mut i: usize = 0;
    while i < item.variants.len()
        invariant
            i <= item.variants.len(),
            all == text::texts(item.variants@),
            forall|k: int| 0 <= k < i ==> all[k] != "regular"@,
        decreases item.variants.len() - i,
    {
        assert(all[i as int] == item.variants[i as int]@);
        if text::same_text(item.variants[i].as_str(), "regular") {
            assert(all.contains("regular"@));
            return "regular".to_owned();
        }
        i = i + 1;
    }
    if item.variants.len() == 0 {
        "regular".to_owned()
    } else {
        item.variants[0].clone()
    }
}

/// What tells two fonts of the online catalog apart.
fn online_id_of(entry: &FontEntry) -> (r: String)
    ensures
        r@ == online_id(entry@),
{
    let mut out = text::lower_text(entry.family.as_str());
    out.append("::");
    out.append(text::lower_text(entry.variant.as_str()).as_str());
    out
}

/// The font that an item offers.
fn offer_of(item: &GoogleWebfontItem) -> (r: Option<FontEntry>)
    ensures
        match r {
            Some(entry) => offered(item@) == Some(entry@),
            None => offered(item@) is None,
        },
{
    let variant = variant_text(item);
    match item.files.get(variant.as_str()) {
        Some(url) => {
            let ttf_url = text::replace_first(url.as_str(), "http://", "https://");
            Some(
                FontEntry {
                    family: item.family.clone(),
                    variant,
                    ttf_url,
                    license: license_text(item),
                },
            )
        },
        None => None,
    }
}

/// The fonts that the items offer, in their order.
fn list_fonts(items: &Vec<GoogleWebfontItem>) -> (r: Vec<FontEntry>)
    ensures
        catalog::entries(r@) == listed(item_views(items@)),
{
    let ghost all = item_views(items@);
    let mut fonts: Vec<FontEntry> = Vec::new();
    let mut ids = StringHashSet::new();
    let mut i: usize = 0;
    assert(catalog::entries(fonts@) == Seq::<FontView>::empty());
    while i < items.len()
        invariant
            i <= items.len(),
            all == item_views(items@),
            catalog::entries(fonts@) == listed(all.subrange(0, i as int)),
            forall|id: Seq<char>| ids@.contains(id) <==> seen(catalog::entries(fonts@), id),
        decreases items.len() - i,
    {
        let ghost before = catalog::entries(fonts@);
        let ghost part = all.subrange(0, i + 1);
        assert(part.drop_last() == all.subrange(0, i as int));
        assert(part.last() == items[i as int]@);
        if let Some(entry) = offer_of(&items[i]) {
            let wanted = online_id_of(&entry);
            let ghost known = ids@;
            if ids.insert(wanted) {
                fonts.push(entry);
                let ghost now = catalog::entries(fonts@);
                assert(now == before.push(entry@));
                assert forall|id: Seq<char>| ids@.contains(id) <==> seen(now, id) by {
                    assert(ids@.contains(id) <==> known.contains(id) || id == online_id(entry@));
                    if seen(before, id) {
                        let k = choose|k: int|
                            0 <= k < before.len() && online_id(#[trigger] before[k]) == id;
                        assert(online_id(now[k]) == id);
                    }
                    if id == online_id(entry@) {
                        assert(online_id(now[before.len() as int]) == id);
                    }
                    if seen(now, id) {
                        let k = choose|k: int|
                            0 <= k < now.len() && online_id(#[trigger] now[k]) == id;
                        if k < before.len() {
                            assert(online_id(before[k]) == id);
                        }
                    }
                }
            } else {
                assert(ids@ == known);
            }
        }
        i = i + 1;
    }
    assert(all.subrange(0, all.len() as int) == all);
    fonts
}

/// The fonts in their order.
fn sort_fonts(fonts: Vec<FontEntry>) -> (r: Vec<FontEntry>)
    requires
        ids_differ(catalog::entries(fonts@)),
    ensures
        in_order(catalog::entries(r@)),
        r.len() == fonts.len(),
        forall|e: FontView|
            catalog::entries(r@).contains(e) <==> catalog::entries(fonts@).contains(e),
{
    let ghost all = catalog::entries(fonts@);
    let mut out: Vec<FontEntry> = Vec::new();
    let mut n: usize = 0;
    while n < fonts.len()
        invariant
            n <= fonts.len(),
            all == catalog::entries(fonts@),
            ids_differ(all),
            out.len() == n,
            in_order(catalog::entries(out@)),
            forall|e: FontView|
                catalog::entries(out@).contains(e) <==> all.subrange(0, n as int).contains(e),
        decreases fonts.len() - n,
    {
        let ghost sorted = catalog::entries(out@);
        let ghost new = all[n as int];
        assert(new == fonts[n as int]@);
        let mut i: usize = 0;
        assert forall|k: int| 0 <= k < sorted.len() implies online_id(#[trigger] sorted[k])
            != online_id(new) by {
            assert(sorted.contains(sorted[k]));
            assert(all.subrange(0, n as int).contains(sorted[k]));
            let l = choose|l: int|
                0 <= l < n && #[trigger] all.subrange(0, n as int)[l] == sorted[k];
            assert(all[l] == sorted[k]);
        }
        while i < out.len() && is_font_before(&out[i], &fonts[n])
            invariant
                i <= out.len() == n,
                n < fonts.len(),
                sorted == catalog::entries(out@),
                new == fonts[n as int]@,
                forall|k: int| 0 <= k < i ==> font_before(#[trigger] sorted[k], new),
            decreases out.len() - i,
        {
            assert(sorted[i as int] == out[i as int]@);
            i = i + 1;
        }
        assert forall|k: int| i <= k < sorted.len() implies font_before(
            new,
            #[trigger] sorted[k],
        ) by {
            assert(sorted[i as int] == out[i as int]@);
            lemma_font_order(new, sorted[i as int], sorted[k]);
        }
        out.insert(i, fonts[n].clone());
        proof {
            let next = catalog::entries(out@);
            assert(next == sorted.insert(i as int, new));
            assert(in_order(next));
            let part = all.subrange(0, n + 1);
            assert forall|e: FontView| next.contains(e) <==> part.contains(e) by {
                let old_part = all.subrange(0, n as int);
                assert(part == old_part.push(new));
                if next.contains(e) {
                    let k = choose|k: int| 0 <= k < next.len() && next[k] == e;
                    if k < i {
                        assert(sorted[k] == e);
                        assert(sorted.contains(e));
                        assert(old_part.contains(e));
                        let l = choose|l: int| 0 <= l < old_part.len() && old_part[l] == e;
                        assert(part[l] == e);
                    } else if k == i {
                        assert(part[n as int] == e);
                    } else {
                        assert(sorted[k - 1] == e);
                        assert(sorted.contains(e));
                        assert(old_part.contains(e));
                        let l = choose|l: int| 0 <= l < old_part.len() && old_part[l] == e;
                        assert(part[l] == e);
                    }
                }
                if part.contains(e) {
                    let l = choose|l: int| 0 <= l < part.len() && part[l] == e;
                    if l < n {
                        assert(old_part[l] == e);
                        assert(sorted.contains(e));
                        let k = choose|k: int| 0 <= k < sorted.len() && sorted[k] == e;
                        if k < i {
                            assert(next[k] == e);
                        } else {
                            assert(next[k + 1] == e);
                        }
                    } else {
                        assert(next[i as int] == e);
                    }
                }
            }
        }
        n = n + 1;
    }
    assert(all.subrange(0, all.len() as int) == all);
    out
}

/// The fonts of the web service's answer: what its items offer, each font once, in order.
pub fn online_fonts(response: &GoogleWebfontsResponse) -> (r: Vec<FontEntry>)
    ensures
        in_order(catalog::entries(r@)),
        r.len() == listed(item_views(response.items@)).len(),
        forall|e: FontView|
            catalog::entries(r@).contains(e) <==> listed(item_views(response.items@)).contains(e),
{
    let fonts = list_fonts(&response.items);
    proof {
        law_listed_ids_differ(item_views(response.items@));
    }
    sort_fonts(fonts)
}

/// A font that stands before those that follow it in a list is in the list once.
proof fn lemma_in_order_once(fonts: Seq<FontView>, i: int, j: int)
    requires
        in_order(fonts),
        0 <= i < fonts.len(),
        0 <= j < fonts.len(),
        fonts[i] == fonts[j],
    ensures
        i == j,
{
    lemma_font_order(fonts[i], fonts[j], fonts[i]);
}

/// There is one way only to put the same fonts in order.
pub proof fn law_order_is_unique(a: Seq<FontView>, b: Seq<FontView>)
    requires
        in_order(a),
        in_order(b),
        forall|e: FontView| a.contains(e) <==> b.contains(e),
    ensures
        a == b,
    decreases a.len(),
{
    if a.len() == 0 {
        if b.len() > 0 {
            assert(b.contains(b[0]));
        }
    } else {
        let x = a.last();
        assert(a[a.len() - 1] == x);
        assert(a.contains(x) && b.contains(x));
        let y = b.last();
        assert(b[b.len() - 1] == y);
        assert(b.contains(y) && a.contains(y));
        let k = choose|k: int| 0 <= k < b.len() && b[k] == x;
        let l = choose|l: int| 0 <= l < a.len() && a[l] == y;
        lemma_font_order(x, y, x);
        assert(x == y);
        let c = a.drop_last();
        let d = b.drop_last();
        assert forall|e: FontView| c.contains(e) <==> d.contains(e) by {
            if c.contains(e) {
                let i = choose|i: int| 0 <= i < c.len() && c[i] == e;
                assert(a[i] == e);
                assert(a.contains(e) && b.contains(e));
                let j = choose|j: int| 0 <= j < b.len() && b[j] == e;
                if j == b.len() - 1 {
                    lemma_in_order_once(a, i, a.len() - 1);
                }
                assert(d[j] == e);
            }
            if d.contains(e) {
                let j = choose|j: int| 0 <= j < d.len() && d[j] == e;
                assert(b[j] == e);
                assert(b.contains(e) && a.contains(e));
                let i = choose|i: int| 0 <= i < a.len() && a[i] == e;
                if i == a.len() - 1 {
                    lemma_in_order_once(b, j, b.len() - 1);
                }
                assert(c[i] == e);
            }
        }
        law_order_is_unique(c, d);
        assert(a == c.push(x));
        assert(b == d.push(y));
    }
}

/// An address without encryption becomes the same address with it.
pub proof fn law_addresses_become_secure(rest: Seq<char>)
    ensures
        text::with_first_replaced("http://"@ + rest, "http://"@, "https://"@) == "https://"@ + rest,
{
    let part = "http://"@;
    let whole = part + rest;
    assert(whole.subrange(0, part.len() as int) == part);
    assert(text::first_at(whole, part, 0));
    text::lemma_with_first_replaced(whole, part, "https://"@, 0);
    assert(whole.subrange(0, 0) == Seq::<char>::empty());
    assert(whole.subrange(part.len() as int, whole.len() as int) == rest);
    assert(Seq::<char>::empty() + "https://"@ == "https://"@);
}

/// An item with a regular variant, wherever it stands among its variants, offers that one. An
/// item without it offers its first variant, and one without variants the regular one. Either
/// way it offers nothing where it has no file of that variant.
pub proof fn law_variant_that_is_offered(item: ItemView, i: int)
    ensures
        0 <= i < item.variants.len() && item.variants[i] == "regular"@ ==> {
            &&& offered(item) is Some <==> item.files.contains_key("regular"@)
            &&& offered(item) is Some ==> (offered(item)->0).variant == "regular"@
        },
        item.variants.len() == 0 ==> {
            &&& offered(item) is Some <==> item.files.contains_key("regular"@)
            &&& offered(item) is Some ==> (offered(item)->0).variant == "regular"@
        },
        item.variants.len() > 0 && (forall|k: int|
            0 <= k < item.variants.len() ==> #[trigger] item.variants[k] != "regular"@) ==> {
            &&& offered(item) is Some <==> item.files.contains_key(item.variants[0])
            &&& offered(item) is Some ==> (offered(item)->0).variant == item.variants[0]
        },
{
}

/// What an item offers is of its family, and its address is that of the file of the variant
/// with the first `http://` made into `https://`. Its license is that of the item, unless
/// that is nothing but white space.
pub proof fn law_offer_is_of_the_item(item: ItemView, a: Seq<char>, b: Seq<char>)
    requires
        offered(item) is Some,
    ensures
        ({
            let e = offered(item)->0;
            let url = item.files[e.variant];
            &&& item.files.contains_key(e.variant)
            &&& e.family == item.family
            &&& url == a + "http://"@ + b && (forall|j: int|
                0 <= j < a.len() ==> !#[trigger] text::occurs_at(url, "http://"@, j)) ==> e.ttf_url
                == a + "https://"@ + b
            &&& (forall|j: int| !#[trigger] text::occurs_at(url, "http://"@, j)) ==> e.ttf_url
                == url
            &&& (forall|j: int|
                0 <= j < item.license.len() ==> text::white_space(#[trigger] item.license[j]))
                ==> e.license == "Unknown"@
            &&& !(forall|j: int|
                0 <= j < item.license.len() ==> text::white_space(#[trigger] item.license[j]))
                ==> e.license == item.license
        }),
{
    let e = offered(item)->0;
    text::law_first_is_replaced(item.files[e.variant], "http://"@, "https://"@, a, b);
    text::law_trim_leaves_nothing(item.license);
}

/// The id of a font in the online catalog is its name and variant in small letters, so fonts
/// that differ in the case of ASCII letters only share one.
pub proof fn law_online_id(a: FontView, b: FontView)
    ensures
        online_id(a) == text::lowered(catalog::id(a)),
        catalog::same(a, b) ==> online_id(a) == online_id(b),
        online_id(a) == online_id(b) && a.family.len() == b.family.len() ==> catalog::same(a, b),
{
    reveal_strlit("::");
    let colons = "::"@;
    assert(text::lowered(colons) =~= colons);
    text::law_lowered(a.family + colons, a.variant, ':');
    text::law_lowered(a.family, colons, ':');
    if online_id(a) == online_id(b) && a.family.len() == b.family.len() {
        let n = a.family.len() as int;
        let x = online_id(a);
        let y = online_id(b);
        assert(x.subrange(0, n) =~= text::lowered(a.family));
        assert(y.subrange(0, n) =~= text::lowered(b.family));
        assert(x.subrange(n + 2, x.len() as int) =~= text::lowered(a.variant));
        assert(y.subrange(n + 2, y.len() as int) =~= text::lowered(b.variant));
    }
}

/// Fonts of different families are in the order of their families, and fonts of one family
/// in the order of their variants.
pub proof fn law_order_is_by_family_and_variant(a: FontView, b: FontView)
    ensures
        a.family != b.family ==> font_before(a, b) == text::text_before(a.family, b.family),
        a.family == b.family ==> font_before(a, b) == text::text_before(a.variant, b.variant),
{
    text::law_text_order(a.family, b.family, a.family);
}

/// The fonts of the list are exactly those that an item offers of which no earlier item
/// offers one with the same id.
pub proof fn law_first_offers_are_listed(items: Seq<ItemView>, e: FontView)
    ensures
        listed(items).contains(e) <==> exists|i: int|
            {
                &&& 0 <= i < items.len()
                &&& offered(#[trigger] items[i]) == Some(e)
                &&& forall|j: int|
                    0 <= j < i && offered(#[trigger] items[j]) is Some ==> online_id(
                        offered(items[j])->0,
                    ) != online_id(e)
            },
    decreases items.len(),
{
    if items.len() > 0 {
        let rest = items.drop_last();
        let n = rest.len() as int;
        let before = listed(rest);
        let now = listed(items);
        law_first_offers_are_listed(rest, e);
        if now.contains(e) {
            let k = choose|k: int| 0 <= k < now.len() && now[k] == e;
            if k < before.len() {
                assert(before[k] == e);
                assert(before.contains(e));
                let i = choose|i: int|
                    {
                        &&& 0 <= i < rest.len()
                        &&& offered(#[trigger] rest[i]) == Some(e)
                        &&& forall|j: int|
                            0 <= j < i && offered(#[trigger] rest[j]) is Some ==> online_id(
                                offered(rest[j])->0,
                            ) != online_id(e)
                    };
                assert(items[i] == rest[i]);
                assert forall|j: int|
                    0 <= j < i && offered(#[trigger] items[j]) is Some implies online_id(
                    offered(items[j])->0,
                ) != online_id(e) by {
                    assert(rest[j] == items[j]);
                }
            } else {
                assert(offered(items[n]) == Some(e));
                assert(!seen(before, online_id(e)));
                assert forall|j: int|
                    0 <= j < n && offered(#[trigger] items[j]) is Some implies online_id(
                    offered(items[j])->0,
                ) != online_id(e) by {
                    assert(rest[j] == items[j]);
                    law_offers_are_listed(rest, j);
                }
            }
        }
        if exists|i: int|
            {
                &&& 0 <= i < items.len()
                &&& offered(#[trigger] items[i]) == Some(e)
                &&& forall|j: int|
                    0 <= j < i && offered(#[trigger] items[j]) is Some ==> online_id(
                        offered(items[j])->0,
                    ) != online_id(e)
            } {
            let i = choose|i: int|
                {
                    &&& 0 <= i < items.len()
                    &&& offered(#[trigger] items[i]) == Some(e)
                    &&& forall|j: int|
                        0 <= j < i && offered(#[trigger] items[j]) is Some ==> online_id(
                            offered(items[j])->0,
                        ) != online_id(e)
                };
            if i < n {
                assert(rest[i] == items[i]);
                assert forall|j: int|
                    0 <= j < i && offered(#[trigger] rest[j]) is Some implies online_id(
                    offered(rest[j])->0,
                ) != online_id(e) by {
                    assert(rest[j] == items[j]);
                }
                assert(before.contains(e));
                let k = choose|k: int| 0 <= k < before.len() && before[k] == e;
                assert(now[k] == e);
            } else {
                if seen(before, online_id(e)) {
                    let k = choose|k: int|
                        0 <= k < before.len() && online_id(#[trigger] before[k]) == online_id(e);
                    law_listed_are_offered(rest, k);
                    let j = choose|j: int|
                        0 <= j < rest.len() && offered(#[trigger] rest[j]) == Some(before[k]);
                    assert(items[j] == rest[j]);
                }
                assert(now[now.len() - 1] == e);
            }
        }
    }
}

/// The key stands as it is at the end of the address that the catalog is asked from.
pub proof fn law_request_ends_with_the_key(api_key: Seq<char>)
    ensures
        request_url(api_key)
            == "https://www.googleapis.com/webfonts/v1/webfonts?sort=popularity&key="@ + api_key,
{
}

/// Items are seen with all that they hold, each at its place.
pub proof fn law_item_views(items: Seq<GoogleWebfontItem>, i: int, k: int)
    requires
        0 <= i < items.len(),
    ensures
        item_views(items).len() == items.len(),
        item_views(items)[i].family == items[i].family@,
        item_views(items)[i].license == items[i].license@,
        item_views(items)[i].files == items[i].files@,
        item_views(items)[i].variants.len() == items[i].variants@.len(),
        0 <= k < items[i].variants@.len() ==> item_views(items)[i].variants[k]
            == items[i].variants@[k]@,
{
}

} // verus!
