//! The search for a font by typing: its state, what keys do to it, and what its screen
//! shows.

use vstd::prelude::*;
use crate::browser;
use crate::browser::Key;
use crate::catalog;
use crate::catalog::{FontEntry, FontView};
use crate::frame;
use crate::frame::{Span, SpanView};
use crate::text;

verus! {

/// The state of a search.
pub struct FontSearch {
    /// What was typed.
    pub query: String,
    /// The place of the selected entry among those that match.
    pub selected: usize,
}

/// The state of a search, as a text and a number.
pub struct SearchView {
    pub query: Seq<char>,
    pub selected: int,
}

impl View for FontSearch {
    type V = SearchView;

    open spec fn view(&self) -> SearchView {
        SearchView { query: self.query@, selected: self.selected as int }
    }
}

/// How a search goes on after a key.
#[derive(Debug)]
pub enum SearchStep {
    /// It goes on.
    Stay,
    /// It ends with nothing chosen.
    Cancel,
    /// It ends with an entry.
    Choose(FontEntry),
}

/// How a search goes on after a key, as texts.
pub enum SearchStepView {
    Stay,
    Cancel,
    Choose(FontView),
}

impl View for SearchStep {
    type V = SearchStepView;

    open spec fn view(&self) -> SearchStepView {
        match *self {
            SearchStep::Stay => SearchStepView::Stay,
            SearchStep::Cancel => SearchStepView::Cancel,
            SearchStep::Choose(entry) => SearchStepView::Choose(entry@),
        }
    }
}

/// The last of `count` places, or the first where there is none.
pub open spec fn last_place(count: int) -> int {
    browser::minus(count, 1)
}

/// A place, but no later than the last of `count` places.
pub open spec fn kept_within(selected: int, count: int) -> int {
    if selected < count {
        selected
    } else {
        last_place(count)
    }
}

/// The places of the entries that a search shows.
pub open spec fn results(s: SearchView, catalog: Seq<FontView>) -> Seq<int> {
    catalog::matching(catalog, s.query)
}

/// The selected place is one of `count` places, or the first where there is none.
pub open spec fn settled(s: SearchView, count: int) -> bool {
    0 <= s.selected <= last_place(count)
}

/// Places of entries of a catalog.
pub open spec fn in_catalog(found: Seq<int>, catalog: Seq<FontView>) -> bool {
    forall|k: int| 0 <= k < found.len() ==> 0 <= #[trigger] found[k] < catalog.len()
}

/// The search after its entries were found anew.
pub open spec fn refreshed(s: SearchView, catalog: Seq<FontView>) -> SearchView {
    SearchView { selected: kept_within(s.selected, results(s, catalog).len() as int), ..s }
}

/// The search after a key, where it shows `count` entries. `page` is the number of rows that
/// a page moves.
pub open spec fn after_key(s: SearchView, count: int, key: Key, page: int) -> SearchView {
    match key {
        Key::Up | Key::Char('k') => SearchView { selected: browser::minus(s.selected, 1), ..s },
        Key::Down | Key::Char('j') => SearchView {
            selected: kept_within(s.selected + 1, count),
            ..s
        },
        Key::PageUp => SearchView { selected: browser::minus(s.selected, page), ..s },
        Key::PageDown => SearchView { selected: kept_within(s.selected + page, count), ..s },
        Key::Backspace => if s.query.len() > 0 {
            SearchView { query: s.query.drop_last(), ..s }
        } else {
            s
        },
        Key::Char(c) => if text::control(c) {
            s
        } else {
            SearchView { query: s.query.push(c), ..s }
        },
        _ => s,
    }
}

/// How the search goes on after a key, where it shows the entries at the places `found`.
pub open spec fn step_for(
    s: SearchView,
    catalog: Seq<FontView>,
    found: Seq<int>,
    key: Key,
) -> SearchStepView {
    match key {
        Key::Esc => SearchStepView::Cancel,
        Key::Enter => if found.len() > 0 {
            SearchStepView::Choose(catalog[found[s.selected]])
        } else {
            SearchStepView::Stay
        },
        _ => SearchStepView::Stay,
    }
}

/// The number of rows that a page moves on a screen of a height.
pub open spec fn page_rows(height: Option<u16>) -> int {
    match height {
        Some(h) => if h < 7 {
            1
        } else {
            h - 6
        },
        None => 10,
    }
}

/// The number of rows that a page moves on a screen of a height; ten where the height is
/// not known.
pub fn search_page_step(height: Option<u16>) -> (r: usize)
    ensures
        r == page_rows(height),
        r == match height {
            Some(h) => if h <= 7 {
                1
            } else {
                h - 6
            },
            None => 10,
        },
{
    match height {
        Some(h) => if h <= 7 {
            1
        } else {
            (h - 6) as usize
        },
        None => 10,
    }
}

impl FontSearch {
    /// A search in which nothing was typed yet.
    pub fn new() -> (r: FontSearch)
        ensures
            r@ == (SearchView { query: Seq::empty(), selected: 0 }),
    {
        FontSearch { query: String::new(), selected: 0 }
    }

    /// Finds the entries that match what was typed.
    pub fn refresh(&mut self, catalog: &[FontEntry]) -> (r: Vec<usize>)
        ensures
            final(self)@ == refreshed(old(self)@, catalog::entries(catalog@)),
            catalog::places(r@) == results(old(self)@, catalog::entries(catalog@)),
            settled(final(self)@, r.len() as int),
            in_catalog(catalog::places(r@), catalog::entries(catalog@)),
    {
        let filtered = catalog::filter_fonts(catalog, self.query.as_str());
        proof {
            catalog::law_search_is_exact(catalog::entries(catalog@), self.query@);
        }
        assert(catalog::places(filtered@).len() == filtered.len());
        if self.selected >= filtered.len() {
            self.selected = filtered.len().saturating_sub(1);
        }
        filtered
    }

    /// Takes a key. `filtered` holds the places of the entries that are shown, and `page` is
    /// the number of rows that a page moves.
    pub fn on_key(
        &mut self,
        catalog: &[FontEntry],
        filtered: &Vec<usize>,
        key: Key,
        page: usize,
    ) -> (r: SearchStep)
        requires
            in_catalog(catalog::places(filtered@), catalog::entries(catalog@)),
            settled(old(self)@, filtered.len() as int),
        ensures
            final(self)@ == after_key(old(self)@, filtered.len() as int, key, page as int),
            r@ == step_for(
                old(self)@,
                catalog::entries(catalog@),
                catalog::places(filtered@),
                key,
            ),
    {
        let ghost all = catalog::entries(catalog@);
        assert(catalog::places(filtered@).len() == filtered.len());
        let last: usize = filtered.len().saturating_sub(1);
        match key {
            Key::Esc => SearchStep::Cancel,
            Key::Enter => {
                if filtered.len() == 0 {
                    return SearchStep::Stay;
                }
                let place: usize = filtered[self.selected];
                proof {
                    let found = catalog::places(filtered@);
                    assert(found[self.selected as int] == place);
                    assert(all[place as int] == catalog@[place as int]@);
                }
                SearchStep::Choose(catalog[place].clone())
            },
            Key::Up | Key::Char('k') => {
                self.selected = self.selected.saturating_sub(1);
                SearchStep::Stay
            },
            Key::Down | Key::Char('j') => {
                if self.selected < last {
                    self.selected = self.selected + 1;
                }
                SearchStep::Stay
            },
            Key::PageUp => {
                self.selected = self.selected.saturating_sub(page);
                SearchStep::Stay
            },
            Key::PageDown => {
                self.selected = if page <= last - self.selected {
                    self.selected + page
                } else {
                    last
                };
                SearchStep::Stay
            },
            Key::Backspace => {
                let chars = text::chars_of(self.query.as_str());
                if chars.len() > 0 {
                    self.query = text::text_of(&chars, 0, chars.len() - 1);
                    assert(self.query@ == chars@.drop_last());
                }
                SearchStep::Stay
            },
            Key::Char(c) => {
                if !text::is_control(c) {
                    self.query.push(c);
                }
                SearchStep::Stay
            },
            _ => SearchStep::Stay,
        }
    }
}

/// The keys, as the screen explains them.
pub const SEARCH_HELP: &'static str =
    "Type to filter • ↑/↓/PgUp/PgDn or j/k • Enter add/select • Esc cancel";

/// The row for the entry at a place.
pub open spec fn result_row(e: FontView, marked: bool) -> Seq<char> {
    (if marked {
        "> "@
    } else {
        "  "@
    }) + e.family + " "@ + catalog::details(e)
}

/// What the screen shows above the entries.
pub open spec fn search_header(title: Seq<char>, query: Seq<char>) -> Seq<SpanView> {
    seq![
        frame::strong(0, 0, title),
        frame::plain(0, 1, SEARCH_HELP@),
        frame::plain(0, 2, "query: "@ + query),
    ]
}

/// The entries at the places `found` that fit on a screen of height `h`, with a mark at the
/// selected one.
pub open spec fn result_spans(
    catalog: Seq<FontView>,
    found: Seq<int>,
    selected: int,
    h: int,
) -> Seq<SpanView> {
    let start = frame::window_start(selected, browser::minus(h, 4), found.len() as int);
    let end = frame::window_end(selected, browser::minus(h, 4), found.len() as int);
    if found.len() == 0 {
        seq![frame::plain(0, 4, "No results"@)]
    } else {
        Seq::new(
            (end - start) as nat,
            |k: int|
                frame::plain(
                    0,
                    4 + k,
                    result_row(catalog[found[start + k]], found[start + k] == found[selected]),
                ),
        )
    }
}

/// All that a screen of height `h` shows of a search.
pub open spec fn search_spans(
    title: Seq<char>,
    s: SearchView,
    catalog: Seq<FontView>,
    found: Seq<int>,
    h: int,
) -> Seq<SpanView> {
    search_header(title, s.query) + result_spans(catalog, found, s.selected, h)
}

impl FontSearch {
    /// All that a screen of height `h` shows. `filtered` holds the places of the entries.
    pub fn draw(
        &self,
        title: &str,
        catalog: &[FontEntry],
        filtered: &Vec<usize>,
        h: u16,
    ) -> (r: Vec<Span>)
        requires
            in_catalog(catalog::places(filtered@), catalog::entries(catalog@)),
            filtered.len() == 0 || self@.selected < filtered.len(),
        ensures
            frame::spans(r@) == search_spans(
                title@,
                self@,
                catalog::entries(catalog@),
                catalog::places(filtered@),
                h as int,
            ),
    {
        let ghost all = catalog::entries(catalog@);
        let ghost found = catalog::places(filtered@);
        let mut out: Vec<Span> = Vec::new();
        let mut asked = String::new();
        asked.append("query: ");
        asked.append(self.query.as_str());
        frame::place(&mut out, 0, 0, title, true);
        frame::place(&mut out, 0, 1, SEARCH_HELP, false);
        frame::place(&mut out, 0, 2, asked.as_str(), false);
        let ghost header = search_header(title@, self.query@);
        assert(frame::spans(out@) == header);
        assert(catalog::places(filtered@).len() == filtered.len());
        if filtered.len() == 0 {
            frame::place(&mut out, 0, 4, "No results", false);
            assert(frame::spans(out@) == header + seq![frame::plain(0, 4, "No results"@)]);
            return out;
        }
        let ghost wanted = result_spans(all, found, self.selected as int, h as int);
        let marked: usize = filtered[self.selected];
        let height: u16 = h.saturating_sub(4);
        let (start, end) = frame::list_window(self.selected, height as usize, filtered.len());
        let mut row: u16 = 4;
        let mut i: usize = start;
        assert(header + wanted.subrange(0, 0) == header);
        while i < end
            invariant
                start <= i <= end <= filtered.len(),
                all == catalog::entries(catalog@),
                found == catalog::places(filtered@),
                in_catalog(found, all),
                self.selected < filtered.len(),
                marked == filtered[self.selected as int],
                height == browser::minus(h as int, 4),
                start == frame::window_start(
                    self.selected as int,
                    height as int,
                    found.len() as int,
                ),
                end == frame::window_end(self.selected as int, height as int, found.len() as int),
                end - start <= height,
                0 < found.len(),
                wanted == result_spans(all, found, self.selected as int, h as int),
                row == 4 + (i - start),
                frame::spans(out@) == header + wanted.subrange(0, i - start),
            decreases end - i,
        {
            assert(found[i as int] == filtered[i as int]);
            assert(found[self.selected as int] == marked);
            let entry = &catalog[filtered[i]];
            assert(all[found[i as int]] == entry@);
            let mut item = String::new();
            if filtered[i] == marked {
                item.append("> ");
            } else {
                item.append("  ");
            }
            item.append(entry.family.as_str());
            item.append(" ");
            item.append(catalog::font_details(entry).as_str());
            frame::place(&mut out, 0, row, item.as_str(), false);
            assert(wanted[i - start] == frame::plain(0, row as int, item@));
            assert(wanted.subrange(0, i - start + 1) == wanted.subrange(0, i - start).push(
                wanted[i - start],
            ));
            assert(frame::spans(out@) == header + wanted.subrange(0, i - start + 1));
            row = row + 1;
            i = i + 1;
        }
        assert(wanted.subrange(0, wanted.len() as int) == wanted);
        out
    }
}

/// Finding the entries anew selects one of them, or the first place where there is none,
/// and finding them once more changes nothing.
pub proof fn law_refresh_settles(s: SearchView, catalog: Seq<FontView>)
    requires
        0 <= s.selected,
    ensures
        settled(refreshed(s, catalog), results(s, catalog).len() as int),
        refreshed(refreshed(s, catalog), catalog) == refreshed(s, catalog),
        settled(s, results(s, catalog).len() as int) ==> refreshed(s, catalog) == s,
{
}

/// An entry that is chosen matches what was typed.
pub proof fn law_chosen_entry_matches(s: SearchView, catalog: Seq<FontView>)
    requires
        settled(s, results(s, catalog).len() as int),
    ensures
        match step_for(s, catalog, results(s, catalog), Key::Enter) {
            SearchStepView::Choose(e) => catalog::matches_query(e, s.query) && catalog.contains(e),
            _ => forall|i: int|
                0 <= i < catalog.len() ==> !catalog::matches_query(#[trigger] catalog[i], s.query),
        },
{
    catalog::law_search_is_exact(catalog, s.query);
    let found = results(s, catalog);
    if found.len() > 0 {
        assert(0 <= found[s.selected] < catalog.len());
    } else {
        assert forall|i: int| 0 <= i < catalog.len() implies !catalog::matches_query(
            #[trigger] catalog[i],
            s.query,
        ) by {
            if catalog::matches_query(catalog[i], s.query) {
                assert(found.contains(i));
            }
        }
    }
}

/// Of the entries that match what was typed only the selected one is marked.
pub proof fn law_one_entry_is_marked(s: SearchView, catalog: Seq<FontView>, k: int)
    requires
        0 <= s.selected < results(s, catalog).len(),
        0 <= k < results(s, catalog).len(),
    ensures
        results(s, catalog)[k] == results(s, catalog)[s.selected] <==> k == s.selected,
{
    catalog::law_search_is_exact(catalog, s.query);
}

/// Moving leaves what was typed as it is, and keeps to the entries that are shown.
pub proof fn law_moves_keep_to_the_results(s: SearchView, count: int, key: Key, page: int)
    requires
        settled(s, count),
        0 <= count,
        0 <= page,
        key is Up || key is Down || key is PageUp || key is PageDown,
    ensures
        after_key(s, count, key, page).query == s.query,
        settled(after_key(s, count, key, page), count),
{
}

/// A character that was typed is taken back, but for `j` and `k`, which move, and for
/// control characters, which do nothing. The number of entries may change in between.
pub proof fn law_backspace_takes_back(s: SearchView, count: int, now: int, c: char, page: int)
    requires
        c != 'j',
        c != 'k',
        !text::control(c),
    ensures
        after_key(s, count, Key::Char(c), page).query == s.query.push(c),
        after_key(after_key(s, count, Key::Char(c), page), now, Key::Backspace, page) == s,
{
    assert(s.query.push(c).drop_last() == s.query);
}

/// The entries that a search shows are exactly those that match what was typed, each once, in
/// the order of the catalog.
pub proof fn law_results(s: SearchView, catalog: Seq<FontView>, i: int)
    ensures
        results(s, catalog).contains(i) <==> 0 <= i < catalog.len() && catalog::matches_query(
            catalog[i],
            s.query,
        ),
        forall|k: int, l: int|
            0 <= k < l < results(s, catalog).len() ==> results(s, catalog)[k] < results(
                s,
                catalog,
            )[l],
{
    catalog::law_search_is_exact(catalog, s.query);
    if results(s, catalog).contains(i) {
        let k = choose|k: int| 0 <= k < results(s, catalog).len() && results(s, catalog)[k] == i;
        assert(catalog::matching(catalog, s.query)[k] == i);
    }
}

/// Finding the entries anew leaves what was typed, and the selected place where it still has
/// an entry; a place behind the last entry becomes that of the last one.
pub proof fn law_refresh_keeps_the_place(s: SearchView, catalog: Seq<FontView>)
    requires
        0 <= s.selected,
    ensures
        refreshed(s, catalog).query == s.query,
        s.selected < results(s, catalog).len() ==> refreshed(s, catalog).selected == s.selected,
        0 < results(s, catalog).len() <= s.selected ==> refreshed(s, catalog).selected + 1
            == results(s, catalog).len(),
        results(s, catalog).len() == 0 ==> refreshed(s, catalog).selected == 0,
{
}

/// Down goes to the entry behind the selected one, up to the one before it, and a page as many
/// entries on or back as it has rows, but not past the last or the first. What was typed
/// stays.
pub proof fn law_moves(s: SearchView, count: int, page: int)
    requires
        0 <= s.selected < count,
        0 <= page,
    ensures
        ({
            let down = after_key(s, count, Key::Down, page);
            let up = after_key(s, count, Key::Up, page);
            let on = after_key(s, count, Key::PageDown, page);
            let back = after_key(s, count, Key::PageUp, page);
            &&& down.query == s.query && up.query == s.query && on.query == s.query && back.query
                == s.query
            &&& s.selected + 1 < count ==> down.selected == s.selected + 1
            &&& s.selected + 1 == count ==> down.selected == s.selected
            &&& s.selected > 0 ==> up.selected == s.selected - 1
            &&& s.selected == 0 ==> up.selected == 0
            &&& s.selected + page < count ==> on.selected == s.selected + page
            &&& s.selected + page >= count ==> on.selected == count - 1
            &&& s.selected >= page ==> back.selected == s.selected - page
            &&& s.selected < page ==> back.selected == 0
        }),
{
}

/// Without entries every move leaves the first place selected.
pub proof fn law_moves_without_entries(s: SearchView, page: int, key: Key)
    requires
        s.selected == 0,
        0 <= page,
    ensures
        after_key(s, 0, key, page).selected == 0,
{
}

/// `j` and `k` move, every other character that is no control character is typed, and the key
/// that goes back takes the last one away. None of these but `j` and `k` changes the selected
/// place; no other key changes anything.
pub proof fn law_typing(s: SearchView, count: int, page: int, c: char)
    ensures
        after_key(s, count, Key::Char('j'), page) == after_key(s, count, Key::Down, page),
        after_key(s, count, Key::Char('k'), page) == after_key(s, count, Key::Up, page),
        c != 'j' && c != 'k' ==> after_key(s, count, Key::Char(c), page).selected == s.selected,
        c != 'j' && c != 'k' && (' ' <= c <= '~' || '\u{a0}' <= c) ==> after_key(
            s,
            count,
            Key::Char(c),
            page,
        ).query == s.query + seq![c],
        c != 'j' && c != 'k' && !(' ' <= c <= '~' || '\u{a0}' <= c) ==> after_key(
            s,
            count,
            Key::Char(c),
            page,
        ) == s,
        after_key(s, count, Key::Backspace, page).selected == s.selected,
        s.query.len() == 0 ==> after_key(s, count, Key::Backspace, page) == s,
        s.query.len() > 0 ==> after_key(s, count, Key::Backspace, page).query + seq![s.query.last()]
            == s.query,
        after_key(s, count, Key::Enter, page) == s,
        after_key(s, count, Key::Esc, page) == s,
        after_key(s, count, Key::Other, page) == s,
{
    text::law_control(c);
    assert(s.query.push(c) == s.query + seq![c]);
    if s.query.len() > 0 {
        assert(s.query.drop_last() + seq![s.query.last()] == s.query);
    }
}

/// The search ends with nothing by the key for leaving only, and with an entry by the key for
/// choosing only, if an entry is shown. It goes on after every other key.
pub proof fn law_only_two_keys_end_the_search(
    s: SearchView,
    catalog: Seq<FontView>,
    found: Seq<int>,
    key: Key,
)
    ensures
        step_for(s, catalog, found, key) is Cancel <==> key is Esc,
        step_for(s, catalog, found, key) is Choose <==> key is Enter && found.len() > 0,
{
}

/// The key for choosing takes the entry that stands at the selected place of those that are
/// shown: going down once before it takes the next one, and going up once the one before.
pub proof fn law_enter_chooses_the_selected(
    s: SearchView,
    catalog: Seq<FontView>,
    found: Seq<int>,
    page: int,
)
    requires
        0 <= s.selected < found.len(),
    ensures
        step_for(s, catalog, found, Key::Enter) == SearchStepView::Choose(
            catalog[found[s.selected]],
        ),
        s.selected + 1 < found.len() ==> step_for(
            after_key(s, found.len() as int, Key::Down, page),
            catalog,
            found,
            Key::Enter,
        ) == SearchStepView::Choose(catalog[found[s.selected + 1]]),
        s.selected > 0 ==> step_for(
            after_key(s, found.len() as int, Key::Up, page),
            catalog,
            found,
            Key::Enter,
        ) == SearchStepView::Choose(catalog[found[s.selected - 1]]),
{
}

/// The row that a screen shows of an entry: its family, its variant in square brackets and its
/// license in round ones behind two characters, of which the first is the mark.
pub open spec fn shows_entry(piece: SpanView, e: FontView, marked: bool) -> bool {
    piece.content == seq![
        if marked {
            '>'
        } else {
            ' '
        },
        ' ',
    ] + e.family + seq![' ', '['] + e.variant + seq![']', ' ', '('] + e.license + seq![')']
        && !piece.bold
}

proof fn lemma_result_row(e: FontView, marked: bool, piece: SpanView)
    requires
        piece.content == result_row(e, marked),
        !piece.bold,
    ensures
        shows_entry(piece, e, marked),
{
    reveal_strlit("> ");
    reveal_strlit("  ");
    reveal_strlit(" ");
    catalog::law_details(e);
    let start = seq![
        if marked {
            '>'
        } else {
            ' '
        },
        ' ',
    ];
    let whole = start + e.family + seq![' ', '['] + e.variant + seq![']', ' ', '('] + e.license
        + seq![')'];
    assert(piece.content =~= whole);
}

/// Below three rows with the title, the keys and what was typed, the screen of a search shows
/// as many entries as fit, without a gap, and says so where there is none. The rows are those
/// of the entries at the places `found`, one after the other; the one of the selected place is
/// among them, and it is marked. No other row is, unless it is of the same entry.
pub proof fn law_search_screen(
    title: Seq<char>,
    s: SearchView,
    catalog: Seq<FontView>,
    found: Seq<int>,
    h: int,
)
    requires
        found.len() == 0 || 0 <= s.selected < found.len(),
        0 <= h,
    ensures
        ({
            let screen = search_spans(title, s, catalog, found, h);
            let room = if h < 4 {
                0
            } else {
                h - 4
            };
            &&& screen.len() >= 3
            &&& screen[0].content == title && screen[0].x == 0 && screen[0].y == 0
                && screen[0].bold
            &&& screen[1].content == SEARCH_HELP@ && screen[1].x == 0 && screen[1].y == 1
                && !screen[1].bold
            &&& screen[2].content == "query: "@ + s.query && screen[2].x == 0 && screen[2].y == 2
                && !screen[2].bold
            &&& found.len() == 0 ==> screen.len() == 4 && screen[3].content == "No results"@
                && screen[3].x == 0 && screen[3].y == 4 && !screen[3].bold
            &&& found.len() > 0 ==> {
                let start = frame::window_start(s.selected, room, found.len() as int);
                &&& screen.len() == 3 + if found.len() < room {
                    found.len() as int
                } else {
                    room
                }
                &&& room > 0 ==> start <= s.selected < start + screen.len() - 3
                &&& 0 <= start <= start + screen.len() - 3 <= found.len()
                &&& forall|k: int|
                    #![trigger screen[k]]
                    3 <= k < screen.len() ==> {
                        &&& screen[k].x == 0 && screen[k].y == k + 1
                        &&& shows_entry(
                            screen[k],
                            catalog[found[start + k - 3]],
                            found[start + k - 3] == found[s.selected],
                        )
                    }
            }
        }),
{
    let screen = search_spans(title, s, catalog, found, h);
    let room = if h < 4 {
        0
    } else {
        h - 4
    };
    let rows = result_spans(catalog, found, s.selected, h);
    assert(screen[0] == search_header(title, s.query)[0]);
    assert(screen[1] == search_header(title, s.query)[1]);
    assert(screen[2] == search_header(title, s.query)[2]);
    if found.len() == 0 {
        assert(screen[3] == rows[0]);
    } else {
        let start = frame::window_start(s.selected, room, found.len() as int);
        frame::law_selected_row_is_shown(s.selected, room, found.len() as int);
        assert forall|k: int|
            #![trigger screen[k]]
            3 <= k < screen.len() implies {
            &&& screen[k].x == 0 && screen[k].y == k + 1
            &&& shows_entry(
                screen[k],
                catalog[found[start + k - 3]],
                found[start + k - 3] == found[s.selected],
            )
        } by {
            assert(screen[k] == rows[k - 3]);
            lemma_result_row(
                catalog[found[start + k - 3]],
                found[start + k - 3] == found[s.selected],
                screen[k],
            );
        }
    }
}

/// The entry that the key for choosing takes is the one whose row is marked on the screen.
pub proof fn law_enter_chooses_the_marked(
    title: Seq<char>,
    s: SearchView,
    catalog: Seq<FontView>,
    found: Seq<int>,
    h: int,
)
    requires
        0 <= s.selected < found.len(),
        4 < h,
    ensures
        ({
            let screen = search_spans(title, s, catalog, found, h);
            let step = step_for(s, catalog, found, Key::Enter);
            &&& step is Choose
            &&& exists|k: int|
                3 <= k < screen.len() && shows_entry(
                    #[trigger] screen[k],
                    step->Choose_0,
                    true,
                )
            &&& forall|k: int|
                3 <= k < screen.len() && (#[trigger] screen[k]).content[0] == '>' ==> shows_entry(
                    screen[k],
                    step->Choose_0,
                    true,
                )
        }),
{
    let screen = search_spans(title, s, catalog, found, h);
    let start = frame::window_start(s.selected, h - 4, found.len() as int);
    law_search_screen(title, s, catalog, found, h);
    let k = s.selected - start + 3;
    assert(shows_entry(screen[k], catalog[found[s.selected]], true));
    assert forall|k: int|
        3 <= k < screen.len() && (#[trigger] screen[k]).content[0] == '>' implies shows_entry(
        screen[k],
        catalog[found[s.selected]],
        true,
    ) by {
        let same = found[start + k - 3] == found[s.selected];
        assert(shows_entry(screen[k], catalog[found[start + k - 3]], same));
    }
}

/// A search is seen with what was typed and the selected place, and its end with the entry
/// that was chosen.
pub proof fn law_search_view(s: FontSearch, entry: FontEntry)
    ensures
        s@.query == s.query@,
        s@.selected == s.selected,
        SearchStep::Choose(entry)@ == SearchStepView::Choose(entry@),
        SearchStep::Stay@ is Stay,
        SearchStep::Cancel@ is Cancel,
{
}

/// A page moves six rows less than the screen has, but at least one, and ten where it is not
/// known how many it has. A higher screen never moves less.
pub proof fn law_page_rows(h: u16, higher: u16)
    requires
        h <= higher,
    ensures
        1 <= page_rows(Some(h)) <= page_rows(Some(higher)),
        7 <= h ==> page_rows(Some(h)) + 6 == h,
        h < 7 ==> page_rows(Some(h)) == 1,
        page_rows(None) == 10,
{
}

} // verus!
