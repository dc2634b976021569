//! The font browser: its state, what keys do to it, and what its screen shows.

use vstd::prelude::*;
use crate::catalog;
use crate::catalog::{CatalogError, FontEntry, FontView};
use crate::frame;
use crate::frame::{Span, SpanView};
use crate::profile;
use crate::profile::RasterProfile;
use crate::shell;
use crate::text;
use crate::text_map::TextMap;

verus! {

/// The text that is shown until another is given.
pub const PREVIEW_SAMPLE_TEXT: &'static str = "SHELL QUEST\nmade by pawel potepa";

/// A key that was pressed.
#[derive(Debug, Clone, Copy)]
pub enum Key {
    Char(char),
    Esc,
    Enter,
    Up,
    Down,
    PageUp,
    PageDown,
    Backspace,
    Other,
}

/// What is to be done after a key.
#[derive(Debug)]
pub enum Action {
    /// Go on.
    Stay,
    /// Leave the browser.
    Quit,
    /// Ask for a text to show.
    AskSampleText,
    /// Search the fonts that come with the tool.
    SearchLocal,
    /// Search the fonts of the online catalog.
    SearchOnline,
    /// Put a text into the clipboard.
    Copy(String),
}

/// What is to be done after a key, as texts.
pub enum ActionView {
    Stay,
    Quit,
    AskSampleText,
    SearchLocal,
    SearchOnline,
    Copy(Seq<char>),
}

impl View for Action {
    type V = ActionView;

    open spec fn view(&self) -> ActionView {
        match *self {
            Action::Stay => ActionView::Stay,
            Action::Quit => ActionView::Quit,
            Action::AskSampleText => ActionView::AskSampleText,
            Action::SearchLocal => ActionView::SearchLocal,
            Action::SearchOnline => ActionView::SearchOnline,
            Action::Copy(content) => ActionView::Copy(content@),
        }
    }
}

/// The state of the browser.
pub struct Browser {
    /// The fonts that can be selected.
    pub fonts: Vec<FontEntry>,
    /// The number of fonts that came with the tool.
    pub catalog_total: usize,
    /// The place of the selected font.
    pub selected: usize,
    /// The previews that were made.
    pub preview_cache: TextMap,
    /// What is said at the foot of the screen.
    pub message: String,
    /// The text that is shown.
    pub sample_text: String,
    /// The size in pixels.
    pub preview_size: usize,
    pub profile: RasterProfile,
}

/// The state of the browser, as texts and numbers.
pub struct BrowserView {
    pub fonts: Seq<FontView>,
    pub catalog_total: nat,
    pub selected: int,
    pub cache: Map<Seq<char>, Seq<char>>,
    pub message: Seq<char>,
    pub sample_text: Seq<char>,
    pub size: nat,
    pub profile: RasterProfile,
}

impl View for Browser {
    type V = BrowserView;

    open spec fn view(&self) -> BrowserView {
        BrowserView {
            fonts: catalog::entries(self.fonts@),
            catalog_total: self.catalog_total as nat,
            selected: self.selected as int,
            cache: self.preview_cache@,
            message: self.message@,
            sample_text: self.sample_text@,
            size: self.preview_size as nat,
            profile: self.profile,
        }
    }
}

/// There is a font, one of the fonts is selected, and the size is an even number of pixels
/// from 8 to 80.
pub open spec fn valid(b: BrowserView) -> bool {
    &&& 0 <= b.selected < b.fonts.len()
    &&& 8 <= b.size <= 80
    &&& b.size % 2 == 0
}

/// The browser at its start.
pub open spec fn started(fonts: Seq<FontView>) -> BrowserView {
    BrowserView {
        fonts,
        catalog_total: fonts.len(),
        selected: 0,
        cache: Map::empty(),
        message: Seq::empty(),
        sample_text: PREVIEW_SAMPLE_TEXT@,
        size: 22,
        profile: RasterProfile::Classic,
    }
}

/// The browser with a message.
pub open spec fn saying(b: BrowserView, message: Seq<char>) -> BrowserView {
    BrowserView { message, ..b }
}

/// The browser with a message and without previews.
pub open spec fn afresh(b: BrowserView, message: Seq<char>) -> BrowserView {
    BrowserView { message, cache: Map::empty(), ..b }
}

/// What is said of a size.
pub open spec fn size_message(size: nat) -> Seq<char> {
    "preview size: "@ + text::digits(size) + "px"@
}

/// What is said of a profile.
pub open spec fn profile_message(p: RasterProfile) -> Seq<char> {
    "profile: "@ + profile::profile_id(p)
}

/// The browser with another size.
pub open spec fn with_size(b: BrowserView, size: nat) -> BrowserView {
    afresh(BrowserView { size, ..b }, size_message(size))
}

/// The browser with another profile.
pub open spec fn with_profile(b: BrowserView, p: RasterProfile) -> BrowserView {
    afresh(BrowserView { profile: p, ..b }, profile_message(p))
}

/// The browser after a key.
pub open spec fn after_key(b: BrowserView, key: Key) -> BrowserView {
    match key {
        Key::Down | Key::Char('j') => if b.selected + 1 < b.fonts.len() {
            BrowserView { selected: b.selected + 1, ..b }
        } else {
            BrowserView { selected: b.fonts.len() - 1, ..b }
        },
        Key::Up | Key::Char('k') => if b.selected > 0 {
            BrowserView { selected: b.selected - 1, ..b }
        } else {
            b
        },
        Key::Char('r') => afresh(b, "reloading preview"@),
        Key::Char('=') | Key::Char('+') => with_size(
            b,
            if b.size + 2 <= 80 {
                b.size + 2
            } else {
                80
            },
        ),
        Key::Char('-') | Key::Char('_') => with_size(
            b,
            if b.size >= 10 {
                (b.size - 2) as nat
            } else {
                8
            },
        ),
        Key::Char('[') => with_profile(b, profile::prev_profile(b.profile)),
        Key::Char(']') => with_profile(b, profile::next_profile(b.profile)),
        Key::Char('C') => saying(b, "copied generate command to clipboard"@),
        _ => b,
    }
}

/// What is to be done after a key.
pub open spec fn action_for(b: BrowserView, key: Key) -> ActionView {
    match key {
        Key::Esc | Key::Char('q') => ActionView::Quit,
        Key::Char('t') => ActionView::AskSampleText,
        Key::Char('s') => ActionView::SearchLocal,
        Key::Char('S') => ActionView::SearchOnline,
        Key::Char('C') => ActionView::Copy(
            shell::generate_command(b.fonts[b.selected], b.sample_text, b.size, b.profile),
        ),
        _ => ActionView::Stay,
    }
}

/// The browser after a text was asked for; `None` where none was given.
pub open spec fn after_prompt(b: BrowserView, answer: Option<Seq<char>>) -> BrowserView {
    match answer {
        Some(sample_text) => afresh(BrowserView { sample_text, ..b }, "updated preview text"@),
        None => saying(b, "kept previous preview text"@),
    }
}

/// The browser after a search; `None` where nothing was chosen.
pub open spec fn after_search(
    b: BrowserView,
    found: Option<FontView>,
    online: bool,
) -> BrowserView {
    match found {
        Some(e) => afresh(
            BrowserView {
                fonts: catalog::fonts_with(b.fonts, e),
                selected: catalog::chosen_place(b.fonts, e) as int,
                ..b
            },
            catalog::chosen_message(b.fonts, e),
        ),
        None => saying(
            b,
            if online {
                "online search cancelled"@
            } else {
                "search cancelled"@
            },
        ),
    }
}

/// The browser after the online catalog could not be loaded.
pub open spec fn after_online_failure(b: BrowserView, reason: Seq<char>) -> BrowserView {
    saying(b, "online fonts unavailable: "@ + reason)
}

/// The key under which the preview of the selected font is kept.
pub open spec fn preview_key(b: BrowserView) -> Seq<char> {
    catalog::id(b.fonts[b.selected]) + "|"@ + text::digits(b.size) + ".0|"@
        + profile::profile_id(b.profile) + "|"@ + b.sample_text
}

/// The browser after a preview was made, or could not be made.
pub open spec fn after_preview(
    b: BrowserView,
    made: Result<Seq<char>, Seq<char>>,
) -> BrowserView {
    let family = b.fonts[b.selected].family;
    match made {
        Ok(preview) => BrowserView {
            cache: b.cache.insert(preview_key(b), preview),
            message: "loaded "@ + family + " @ "@ + text::digits(b.size) + "px ("@
                + profile::profile_id(b.profile) + ")"@,
            ..b
        },
        Err(reason) => BrowserView {
            cache: b.cache.insert(preview_key(b), "preview error: "@ + reason),
            message: family + " ("@ + reason + ")"@,
            ..b
        },
    }
}

/// The preview of the selected font, as far as it was made.
pub open spec fn preview_text(b: BrowserView) -> Seq<char> {
    if b.cache.contains_key(preview_key(b)) {
        b.cache[preview_key(b)]
    } else {
        "loading preview..."@
    }
}

impl Browser {
    /// The browser at its start, with the fonts that come with the tool.
    pub fn new(fonts: &[FontEntry]) -> (r: Result<Browser, CatalogError>)
        ensures
            match r {
                Ok(browser) => fonts@.len() > 0 && browser@ == started(catalog::entries(fonts@))
                    && valid(browser@),
                Err(e) => fonts@.len() == 0 && e is Empty,
            },
    {
        if fonts.len() == 0 {
            return Err(CatalogError::Empty);
        }
        let ghost all = catalog::entries(fonts@);
        let mut copies: Vec<FontEntry> = Vec::new();
        let mut i: usize = 0;
        while i < fonts.len()
            invariant
                i <= fonts.len(),
                all == catalog::entries(fonts@),
                catalog::entries(copies@) == all.subrange(0, i as int),
            decreases fonts.len() - i,
        {
            let ghost before = catalog::entries(copies@);
            copies.push(fonts[i].clone());
            assert(catalog::entries(copies@) == before.push(all[i as int]));
            i = i + 1;
        }
        assert(catalog::entries(copies@) == all);
        let browser = Browser {
            fonts: copies,
            catalog_total: fonts.len(),
            selected: 0,
            preview_cache: TextMap::new(),
            message: String::new(),
            sample_text: PREVIEW_SAMPLE_TEXT.to_owned(),
            preview_size: 22,
            profile: RasterProfile::Classic,
        };
        Ok(browser)
    }

    /// Takes the previews out and says something.
    fn refresh(&mut self, message: String)
        ensures
            final(self)@ == afresh(old(self)@, message@),
    {
        self.preview_cache.clear();
        self.message = message;
    }

    /// Sets the size.
    fn resize(&mut self, size: usize)
        ensures
            final(self)@ == with_size(old(self)@, size as nat),
    {
        self.preview_size = size;
        let mut said = String::new();
        said.append("preview size: ");
        said.append(text::decimal(size).as_str());
        said.append("px");
        self.refresh(said);
    }

    /// Sets the profile.
    fn change_profile(&mut self, p: RasterProfile)
        ensures
            final(self)@ == with_profile(old(self)@, p),
    {
        self.profile = p;
        let mut said = String::new();
        said.append("profile: ");
        said.append(p.id());
        self.refresh(said);
    }

    /// Takes a key, and says what is to be done.
    pub fn on_key(&mut self, key: Key) -> (r: Action)
        requires
            valid(old(self)@),
        ensures
            final(self)@ == after_key(old(self)@, key),
            r@ == action_for(old(self)@, key),
            valid(final(self)@),
    {
        match key {
            Key::Esc | Key::Char('q') => Action::Quit,
            Key::Down | Key::Char('j') => {
                if self.selected < self.fonts.len() - 1 {
                    self.selected = self.selected + 1;
                }
                Action::Stay
            },
            Key::Up | Key::Char('k') => {
                if self.selected > 0 {
                    self.selected = self.selected - 1;
                }
                Action::Stay
            },
            Key::Char('r') => {
                self.refresh("reloading preview".to_owned());
                Action::Stay
            },
            Key::Char('t') => Action::AskSampleText,
            Key::Char('=') | Key::Char('+') => {
                let size: usize = if self.preview_size + 2 <= 80 {
                    self.preview_size + 2
                } else {
                    80
                };
                self.resize(size);
                Action::Stay
            },
            Key::Char('-') | Key::Char('_') => {
                let size: usize = if self.preview_size >= 10 {
                    self.preview_size - 2
                } else {
                    8
                };
                self.resize(size);
                Action::Stay
            },
            Key::Char('[') => {
                self.change_profile(self.profile.prev());
                Action::Stay
            },
            Key::Char(']') => {
                self.change_profile(self.profile.next());
                Action::Stay
            },
            Key::Char('s') => Action::SearchLocal,
            Key::Char('S') => Action::SearchOnline,
            Key::Char('C') => {
                let command = shell::build_generate_command(
                    &self.fonts[self.selected],
                    self.sample_text.as_str(),
                    self.preview_size,
                    self.profile,
                );
                self.message = "copied generate command to clipboard".to_owned();
                Action::Copy(command)
            },
            _ => Action::Stay,
        }
    }

    /// Takes the answer to the question for a text.
    pub fn on_prompt(&mut self, answer: Option<String>)
        requires
            valid(old(self)@),
        ensures
            final(self)@ == after_prompt(old(self)@, text::option_text(answer)),
            valid(final(self)@),
    {
        match answer {
            Some(sample_text) => {
                self.sample_text = sample_text;
                self.refresh("updated preview text".to_owned());
            },
            None => {
                self.message = "kept previous preview text".to_owned();
            },
        }
    }

    /// Takes the font that a search has found.
    pub fn on_search(&mut self, found: Option<FontEntry>, online: bool)
        requires
            valid(old(self)@),
        ensures
            final(self)@ == after_search(old(self)@, font_view(found), online),
            valid(final(self)@),
    {
        match found {
            Some(entry) => {
                proof {
                    catalog::law_choosing_selects(self@.fonts, entry@);
                }
                catalog::select_or_add_font(
                    &entry,
                    &mut self.fonts,
                    &mut self.selected,
                    &mut self.message,
                    &mut self.preview_cache,
                );
            },
            None => {
                self.message = if online {
                    "online search cancelled".to_owned()
                } else {
                    "search cancelled".to_owned()
                };
            },
        }
    }

    /// Takes the news that the online catalog could not be loaded.
    pub fn on_online_failure(&mut self, reason: &str)
        requires
            valid(old(self)@),
        ensures
            final(self)@ == after_online_failure(old(self)@, reason@),
            valid(final(self)@),
    {
        let mut said = String::new();
        said.append("online fonts unavailable: ");
        said.append(reason);
        self.message = said;
    }

    /// The key under which the preview of the selected font is kept.
    fn key_of_preview(&self) -> (r: String)
        requires
            valid(self@),
        ensures
            r@ == preview_key(self@),
    {
        assert(self@.fonts[self.selected as int] == self.fonts[self.selected as int]@);
        let mut key = catalog::font_id(&self.fonts[self.selected]);
        key.append("|");
        key.append(text::decimal(self.preview_size).as_str());
        key.append(".0|");
        key.append(self.profile.id());
        key.append("|");
        key.append(self.sample_text.as_str());
        key
    }

    /// Whether the preview of the selected font is still to be made.
    pub fn needs_preview(&self) -> (r: bool)
        requires
            valid(self@),
        ensures
            r == !self@.cache.contains_key(preview_key(self@)),
    {
        !self.preview_cache.contains_key(self.key_of_preview().as_str())
    }

    /// Takes the preview of the selected font, or the reason why there is none.
    pub fn on_preview(&mut self, made: Result<String, String>)
        requires
            valid(old(self)@),
        ensures
            final(self)@ == after_preview(old(self)@, result_text(made)),
            valid(final(self)@),
    {
        let key = self.key_of_preview();
        assert(self@.fonts[self.selected as int] == self.fonts[self.selected as int]@);
        let family = self.fonts[self.selected].family.clone();
        let mut said = String::new();
        match made {
            Ok(preview) => {
                said.append("loaded ");
                said.append(family.as_str());
                said.append(" @ ");
                said.append(text::decimal(self.preview_size).as_str());
                said.append("px (");
                said.append(self.profile.id());
                said.append(")");
                self.preview_cache.insert(key, preview);
            },
            Err(reason) => {
                said.append(family.as_str());
                said.append(" (");
                said.append(reason.as_str());
                said.append(")");
                let mut shown = String::new();
                shown.append("preview error: ");
                shown.append(reason.as_str());
                self.preview_cache.insert(key, shown);
            },
        }
        self.message = said;
    }
}

/// The texts of an entry that may be missing.
pub open spec fn font_view(found: Option<FontEntry>) -> Option<FontView> {
    match found {
        Some(entry) => Some(entry@),
        None => None,
    }
}

/// The texts of a result.
pub open spec fn result_text(made: Result<String, String>) -> Result<Seq<char>, Seq<char>> {
    match made {
        Ok(s) => Ok(s@),
        Err(s) => Err(s@),
    }
}

/// The keys, as the screen explains them.
pub const BROWSER_HELP: &'static str =
    "↑/↓ j/k: nav   s: local search   S: online search   C: copy generate cmd   t: text   -/=: size   [ ]: profile   r: reload   q: quit";

/// `a - b`, but no less than zero.
pub open spec fn minus(a: int, b: int) -> int {
    if a < b {
        0
    } else {
        a - b
    }
}

/// The width of the list of fonts on a screen of width `w`.
pub open spec fn left_width(w: int) -> int {
    if minus(w, 20) < 38 {
        minus(w, 20)
    } else {
        38
    }
}

/// The line that sums up the state.
pub open spec fn status_line(b: BrowserView) -> Seq<char> {
    "fonts: "@ + text::digits(b.fonts.len()) + "/"@ + text::digits(b.catalog_total)
        + "   size: "@ + text::digits(b.size) + "px   profile: "@ + profile::profile_id(b.profile)
        + "   sample: "@ + frame::truncated(frame::first_line(b.sample_text), 36)
}

/// What the screen shows above the list.
pub open spec fn header_spans(b: BrowserView) -> Seq<SpanView> {
    seq![
        frame::strong(0, 0, "TTF Rasterizer Browser"@),
        frame::plain(0, 1, BROWSER_HELP@),
        frame::plain(0, 2, status_line(b)),
    ]
}

/// The row of the list for the font at `i`.
pub open spec fn list_row(b: BrowserView, i: int) -> Seq<char> {
    (if i == b.selected {
        "> "@
    } else {
        "  "@
    }) + b.fonts[i].family
}

/// The rows of the list that fit on a screen.
pub open spec fn list_spans(b: BrowserView, w: int, h: int) -> Seq<SpanView> {
    let total = b.fonts.len() as int;
    let start = frame::window_start(b.selected, minus(h, 6), total);
    let end = frame::window_end(b.selected, minus(h, 6), total);
    Seq::new(
        (end - start) as nat,
        |k: int|
            frame::plain(0, 4 + k, frame::truncated(list_row(b, start + k), left_width(w))),
    )
}

/// What the screen shows above the preview.
pub open spec fn detail_spans(b: BrowserView, w: int) -> Seq<SpanView> {
    let e = b.fonts[b.selected];
    let x = left_width(w) + 2;
    seq![
        frame::strong(x, 0, e.family),
        frame::plain(x, 1, "variant: "@ + e.variant + "  license: "@ + e.license),
        frame::plain(x, 2, "preview:"@),
    ]
}

/// The number of lines of the preview that fit on a screen.
pub open spec fn preview_rows(b: BrowserView, h: int) -> int {
    let total = text::lines(preview_text(b)).len() as int;
    if total < minus(minus(h, 1), 3) {
        total
    } else {
        minus(minus(h, 1), 3)
    }
}

/// The lines of the preview that fit on a screen.
pub open spec fn preview_spans(b: BrowserView, w: int, h: int) -> Seq<SpanView> {
    let x = left_width(w) + 2;
    Seq::new(
        preview_rows(b, h) as nat,
        |i: int|
            frame::plain(
                x,
                3 + i,
                frame::truncated(text::lines(preview_text(b))[i], minus(w, x)),
            ),
    )
}

/// What the screen says at its foot.
pub open spec fn message_spans(b: BrowserView, w: int, h: int) -> Seq<SpanView> {
    if b.message.len() == 0 {
        Seq::empty()
    } else {
        seq![frame::plain(0, minus(h, 1), frame::truncated(b.message, w))]
    }
}

/// All that a screen of width `w` and height `h` shows.
pub open spec fn browser_spans(b: BrowserView, w: int, h: int) -> Seq<SpanView> {
    header_spans(b) + list_spans(b, w, h) + detail_spans(b, w) + preview_spans(b, w, h)
        + message_spans(b, w, h)
}

impl Browser {
    /// The line that sums up the state.
    fn status(&self) -> (r: String)
        ensures
            r@ == status_line(self@),
    {
        let mut out = String::new();
        out.append("fonts: ");
        out.append(text::decimal(self.fonts.len()).as_str());
        out.append("/");
        out.append(text::decimal(self.catalog_total).as_str());
        out.append("   size: ");
        out.append(text::decimal(self.preview_size).as_str());
        out.append("px   profile: ");
        out.append(self.profile.id());
        out.append("   sample: ");
        out.append(frame::single_line_sample(self.sample_text.as_str(), 36).as_str());
        out
    }

    /// Adds what stands above the list.
    fn place_header(&self, out: &mut Vec<Span>)
        ensures
            frame::spans(final(out)@) == frame::spans(old(out)@) + header_spans(self@),
    {
        let ghost before = frame::spans(out@);
        frame::place(out, 0, 0, "TTF Rasterizer Browser", true);
        frame::place(out, 0, 1, BROWSER_HELP, false);
        frame::place(out, 0, 2, self.status().as_str(), false);
        assert(frame::spans(out@) == before + header_spans(self@));
    }

    /// Adds the rows of the list.
    fn place_list(&self, out: &mut Vec<Span>, w: u16, h: u16)
        requires
            valid(self@),
        ensures
            frame::spans(final(out)@) == frame::spans(old(out)@) + list_spans(
                self@,
                w as int,
                h as int,
            ),
    {
        let ghost b = self@;
        let ghost before = frame::spans(out@);
        let ghost wanted = list_spans(b, w as int, h as int);
        let width: u16 = left_width_of(w);
        let height: u16 = h.saturating_sub(6);
        let (start, end) = frame::list_window(self.selected, height as usize, self.fonts.len());
        let mut row: u16 = 4;
        let mut i: usize = start;
        assert(before + wanted.subrange(0, 0) == before);
        while i < end
            invariant
                start <= i <= end <= self.fonts.len(),
                b == self@,
                width == left_width(w as int),
                height == minus(h as int, 6),
                start == frame::window_start(b.selected, height as int, b.fonts.len() as int),
                end == frame::window_end(b.selected, height as int, b.fonts.len() as int),
                end - start <= height,
                wanted == list_spans(b, w as int, h as int),
                row == 4 + (i - start),
                frame::spans(out@) == before + wanted.subrange(0, i - start),
            decreases end - i,
        {
            let ghost so_far = frame::spans(out@);
            let mut item = String::new();
            if i == self.selected {
                item.append("> ");
            } else {
                item.append("  ");
            }
            item.append(self.fonts[i].family.as_str());
            assert(b.fonts[i as int] == self.fonts[i as int]@);
            assert(item@ == list_row(b, i as int));
            let shown = frame::truncate_to_width(item.as_str(), width as usize);
            frame::place(out, 0, row, shown, false);
            assert(wanted[i - start] == frame::plain(0, row as int, shown@));
            assert(wanted.subrange(0, i - start + 1) == wanted.subrange(0, i - start).push(
                wanted[i - start],
            ));
            assert(frame::spans(out@) == before + wanted.subrange(0, i - start + 1));
            row = row + 1;
            i = i + 1;
        }
        assert(wanted.subrange(0, wanted.len() as int) == wanted);
    }

    /// Adds what stands above the preview.
    fn place_details(&self, out: &mut Vec<Span>, w: u16)
        requires
            valid(self@),
        ensures
            frame::spans(final(out)@) == frame::spans(old(out)@) + detail_spans(self@, w as int),
    {
        let ghost before = frame::spans(out@);
        let entry = &self.fonts[self.selected];
        assert(self@.fonts[self.selected as int] == entry@);
        let x: u16 = left_width_of(w) + 2;
        let mut about = String::new();
        about.append("variant: ");
        about.append(entry.variant.as_str());
        about.append("  license: ");
        about.append(entry.license.as_str());
        frame::place(out, x, 0, entry.family.as_str(), true);
        frame::place(out, x, 1, about.as_str(), false);
        frame::place(out, x, 2, "preview:", false);
        assert(frame::spans(out@) == before + detail_spans(self@, w as int));
    }

    /// Adds the lines of the preview.
    fn place_preview(&self, out: &mut Vec<Span>, w: u16, h: u16)
        requires
            valid(self@),
        ensures
            frame::spans(final(out)@) == frame::spans(old(out)@) + preview_spans(
                self@,
                w as int,
                h as int,
            ),
    {
        let ghost b = self@;
        let ghost before = frame::spans(out@);
        let ghost wanted = preview_spans(b, w as int, h as int);
        let key = self.key_of_preview();
        let lines = match self.preview_cache.get(key.as_str()) {
            Some(preview) => text::lines_of(preview.as_str()),
            None => text::lines_of("loading preview..."),
        };
        let ghost ls = text::lines(preview_text(b));
        assert(text::texts(lines@) == ls);
        let x: u16 = left_width_of(w) + 2;
        let width: u16 = w.saturating_sub(x);
        let limit: u16 = h.saturating_sub(1);
        let mut y: u16 = 3;
        let mut i: usize = 0;
        assert(before + wanted.subrange(0, 0) == before);
        while i < lines.len() && y < limit
            invariant
                i <= lines.len(),
                ls == text::lines(preview_text(b)),
                text::texts(lines@) == ls,
                x == left_width(w as int) + 2,
                width == minus(w as int, x as int),
                limit == minus(h as int, 1),
                y == 3 + i,
                i <= preview_rows(b, h as int),
                wanted == preview_spans(b, w as int, h as int),
                frame::spans(out@) == before + wanted.subrange(0, i as int),
            decreases lines.len() - i,
        {
            assert(ls[i as int] == lines[i as int]@);
            let shown = frame::truncate_to_width(lines[i].as_str(), width as usize);
            frame::place(out, x, y, shown, false);
            assert(wanted[i as int] == frame::plain(x as int, y as int, shown@));
            assert(wanted.subrange(0, i + 1) == wanted.subrange(0, i as int).push(
                wanted[i as int],
            ));
            assert(frame::spans(out@) == before + wanted.subrange(0, i + 1));
            y = y + 1;
            i = i + 1;
        }
        assert(i == preview_rows(b, h as int));
        assert(wanted.subrange(0, wanted.len() as int) == wanted);
    }

    /// All that a screen of width `w` and height `h` shows.
    pub fn draw(&self, w: u16, h: u16) -> (r: Vec<Span>)
        requires
            valid(self@),
        ensures
            frame::spans(r@) == browser_spans(self@, w as int, h as int),
    {
        let mut out: Vec<Span> = Vec::new();
        assert(frame::spans(out@) == Seq::<SpanView>::empty());
        self.place_header(&mut out);
        self.place_list(&mut out, w, h);
        self.place_details(&mut out, w);
        self.place_preview(&mut out, w, h);
        let ghost before = frame::spans(out@);
        if !self.message.as_str().is_empty() {
            let shown = frame::truncate_to_width(self.message.as_str(), w as usize);
            frame::place(&mut out, 0, h.saturating_sub(1), shown, false);
        }
        assert(frame::spans(out@) == before + message_spans(self@, w as int, h as int));
        out
    }
}

/// The width of the list of fonts on a screen of width `w`.
fn left_width_of(w: u16) -> (r: u16)
    ensures
        r == left_width(w as int),
{
    let rest: u16 = w.saturating_sub(20);
    if rest < 38 {
        rest
    } else {
        38
    }
}

/// The question for a text.
pub open spec fn prompt_text(current: Seq<char>) -> Seq<char> {
    "Preview text (single line, blank keeps current) ["@ + frame::truncated(
        frame::first_line(current),
        64,
    ) + "]: "@
}

/// The question for a text, with the text that is shown now.
pub fn prompt_line(current: &str) -> (r: String)
    ensures
        r@ == prompt_text(current@),
{
    let mut out = String::new();
    out.append("Preview text (single line, blank keeps current) [");
    out.append(frame::single_line_sample(current, 64).as_str());
    out.append("]: ");
    out
}

/// What a line answers to the question for a text.
pub open spec fn answer_of(input: Seq<char>) -> Option<Seq<char>> {
    if text::trim(input).len() == 0 {
        None
    } else {
        Some(text::trim(input))
    }
}

/// What is answered to the question for a text: the line without the white space around
/// it, or nothing where it is blank.
pub fn prompt_answer(input: &str) -> (r: Option<String>)
    ensures
        text::option_text(r) == answer_of(input@),
        match r {
            Some(answer) => answer@ == text::trim(input@) && answer@.len() > 0,
            None => text::trim(input@).len() == 0,
        },
{
    let value = text::trim_text(input);
    if value.as_str().is_empty() {
        None
    } else {
        Some(value)
    }
}

/// A browser that is valid stays so, whatever happens to it.
pub proof fn law_browser_stays_valid(
    b: BrowserView,
    key: Key,
    answer: Option<Seq<char>>,
    found: Option<FontView>,
    online: bool,
    reason: Seq<char>,
    made: Result<Seq<char>, Seq<char>>,
)
    requires
        valid(b),
    ensures
        valid(after_key(b, key)),
        valid(after_prompt(b, answer)),
        valid(after_search(b, found, online)),
        valid(after_online_failure(b, reason)),
        valid(after_preview(b, made)),
{
    if let Some(e) = found {
        catalog::law_choosing_selects(b.fonts, e);
    }
}

/// What previews depend on, but for the selected font, is the same.
pub open spec fn same_settings(a: BrowserView, b: BrowserView) -> bool {
    a.fonts == b.fonts && a.size == b.size && a.profile == b.profile && a.sample_text
        == b.sample_text
}

/// Previews that were made are kept only while what they depend on stays the same: where
/// a key, a new text or a search changes the fonts, the size, the profile or the text, no
/// preview is left.
pub proof fn law_no_preview_outlives_its_settings(
    b: BrowserView,
    key: Key,
    answer: Option<Seq<char>>,
    found: Option<FontView>,
    online: bool,
)
    ensures
        after_key(b, key).cache == Map::<Seq<char>, Seq<char>>::empty() || (after_key(
            b,
            key,
        ).cache == b.cache && same_settings(after_key(b, key), b)),
        after_prompt(b, answer).cache == Map::<Seq<char>, Seq<char>>::empty() || (after_prompt(
            b,
            answer,
        ).cache == b.cache && same_settings(after_prompt(b, answer), b)),
        after_search(b, found, online).cache == Map::<Seq<char>, Seq<char>>::empty() || (
        after_search(b, found, online).cache == b.cache && same_settings(
            after_search(b, found, online),
            b,
        )),
{
}

/// A preview that was made is what is shown, and it is not made again; so is the reason
/// where it could not be made.
pub proof fn law_preview_is_shown(b: BrowserView, made: Result<Seq<char>, Seq<char>>)
    ensures
        after_preview(b, made).cache.contains_key(preview_key(after_preview(b, made))),
        preview_text(after_preview(b, made)) == match made {
            Ok(preview) => preview,
            Err(reason) => "preview error: "@ + reason,
        },
        same_settings(after_preview(b, made), b),
        after_preview(b, made).selected == b.selected,
{
}

/// Previews that were made for other fonts and settings stay when one is made.
pub proof fn law_other_previews_stay(
    b: BrowserView,
    made: Result<Seq<char>, Seq<char>>,
    other: Seq<char>,
)
    requires
        other != preview_key(b),
        b.cache.contains_key(other),
    ensures
        after_preview(b, made).cache.contains_key(other),
        after_preview(b, made).cache[other] == b.cache[other],
{
}

/// While what previews depend on stays the same, two fonts of different names never share
/// a preview.
pub proof fn law_previews_are_kept_apart(a: BrowserView, b: BrowserView)
    requires
        same_settings(a, b),
        preview_key(a) == preview_key(b),
    ensures
        catalog::id(a.fonts[a.selected]) == catalog::id(b.fonts[b.selected]),
{
    let rest = "|"@ + text::digits(a.size) + ".0|"@ + profile::profile_id(a.profile) + "|"@
        + a.sample_text;
    let x = catalog::id(a.fonts[a.selected]);
    let y = catalog::id(b.fonts[b.selected]);
    assert(preview_key(a) == x + rest);
    assert(preview_key(b) == y + rest);
    assert((x + rest).len() == (y + rest).len());
    assert(x == (x + rest).subrange(0, x.len() as int));
    assert(y == (y + rest).subrange(0, y.len() as int));
}

/// After a reload the preview is to be made again.
pub proof fn law_reload_makes_the_preview_anew(b: BrowserView)
    ensures
        !after_key(b, Key::Char('r')).cache.contains_key(
            preview_key(after_key(b, Key::Char('r'))),
        ),
        same_settings(after_key(b, Key::Char('r')), b),
        after_key(b, Key::Char('r')).selected == b.selected,
{
}

/// Going down and up again comes back, except from the last font; going up and down again
/// does, except from the first.
pub proof fn law_moves_undo_each_other(b: BrowserView)
    requires
        valid(b),
    ensures
        b.selected + 1 < b.fonts.len() ==> after_key(after_key(b, Key::Down), Key::Up) == b,
        b.selected > 0 ==> after_key(after_key(b, Key::Up), Key::Down) == b,
        b.selected + 1 == b.fonts.len() ==> after_key(b, Key::Down) == b,
        b.selected == 0 ==> after_key(b, Key::Up) == b,
{
}

/// A larger and a smaller size undo each other within the limits, and so do the keys for
/// the next and the previous profile.
pub proof fn law_settings_undo_each_other(b: BrowserView)
    requires
        valid(b),
    ensures
        b.size < 80 ==> after_key(after_key(b, Key::Char('+')), Key::Char('-')).size == b.size,
        b.size > 8 ==> after_key(after_key(b, Key::Char('-')), Key::Char('+')).size == b.size,
        b.size == 80 ==> after_key(b, Key::Char('+')).size == 80,
        b.size == 8 ==> after_key(b, Key::Char('-')).size == 8,
        after_key(after_key(b, Key::Char(']')), Key::Char('[')).profile == b.profile,
        after_key(after_key(b, Key::Char('[')), Key::Char(']')).profile == b.profile,
{
    profile::law_next_and_prev_are_inverse(b.profile);
}

/// The keys with two names do the same under both.
pub proof fn law_keys_with_two_names(b: BrowserView)
    ensures
        after_key(b, Key::Char('j')) == after_key(b, Key::Down),
        after_key(b, Key::Char('k')) == after_key(b, Key::Up),
        after_key(b, Key::Char('=')) == after_key(b, Key::Char('+')),
        after_key(b, Key::Char('_')) == after_key(b, Key::Char('-')),
        action_for(b, Key::Char('q')) == action_for(b, Key::Esc),
{
}

/// A list of fonts in which each font is once stays so.
pub proof fn law_fonts_stay_distinct(
    b: BrowserView,
    key: Key,
    answer: Option<Seq<char>>,
    found: Option<FontView>,
    online: bool,
)
    requires
        catalog::no_duplicates(b.fonts),
    ensures
        catalog::no_duplicates(after_key(b, key).fonts),
        catalog::no_duplicates(after_prompt(b, answer).fonts),
        catalog::no_duplicates(after_search(b, found, online).fonts),
{
    if let Some(e) = found {
        catalog::law_choosing_adds_no_duplicate(b.fonts, e);
    }
}

/// Every piece of a screen of width `w` and height `h` above its foot lies above the last
/// row, and the row of the selected font is there, if there is room for a row.
pub proof fn law_screen_keeps_to_its_rows(b: BrowserView, w: int, h: int, i: int)
    requires
        valid(b),
        7 <= h,
        0 <= i < browser_spans(b, w, h).len() - message_spans(b, w, h).len(),
    ensures
        0 <= browser_spans(b, w, h)[i].y < h - 1,
        exists|k: int|
            0 <= k < list_spans(b, w, h).len() && (#[trigger] list_spans(b, w, h)[k]).content
                == frame::truncated("> "@ + b.fonts[b.selected].family, left_width(w)),
{
    let total = b.fonts.len() as int;
    let start = frame::window_start(b.selected, minus(h, 6), total);
    frame::law_selected_row_is_shown(b.selected, minus(h, 6), total);
    let rows = list_spans(b, w, h);
    assert(rows[b.selected - start].content == frame::truncated(
        "> "@ + b.fonts[b.selected].family,
        left_width(w),
    ));
    let header = header_spans(b);
    let details = detail_spans(b, w);
    let lines = preview_spans(b, w, h);
    let whole = browser_spans(b, w, h);
    if i < 3 {
        assert(whole[i] == header[i]);
    } else if i < 3 + rows.len() {
        assert(whole[i] == rows[i - 3]);
    } else if i < 6 + rows.len() {
        assert(whole[i] == details[i - 3 - rows.len()]);
    } else {
        assert(whole[i] == lines[i - 6 - rows.len()]);
    }
}

/// The browser starts with all fonts that it is given, in their order, with the first one
/// selected, without previews and without anything to say.
pub proof fn law_start(fonts: Seq<FontView>)
    ensures
        started(fonts).fonts == fonts,
        started(fonts).catalog_total == fonts.len(),
        started(fonts).selected == 0,
        started(fonts).message.len() == 0,
        started(fonts).sample_text == "SHELL QUEST\nmade by pawel potepa"@,
        started(fonts).size == 22,
        started(fonts).profile == RasterProfile::Classic,
        forall|key: Seq<char>| !#[trigger] started(fonts).cache.contains_key(key),
{
}

/// Down selects the next font, and up the one before, as far as there is one. Nothing else
/// changes.
pub proof fn law_moves(b: BrowserView)
    requires
        valid(b),
    ensures
        ({
            let down = after_key(b, Key::Down);
            let up = after_key(b, Key::Up);
            &&& b.selected + 1 < b.fonts.len() ==> down == (BrowserView {
                selected: b.selected + 1,
                ..b
            })
            &&& b.selected + 1 == b.fonts.len() ==> down == b
            &&& b.selected > 0 ==> up == (BrowserView { selected: b.selected - 1, ..b })
            &&& b.selected == 0 ==> up == b
        }),
{
}

/// A larger size is two pixels larger up to 80, and a smaller one two pixels smaller down to 8.
/// The new size is said, the previews are gone, and nothing else changes.
pub proof fn law_sizes(b: BrowserView)
    requires
        valid(b),
    ensures
        ({
            let more = after_key(b, Key::Char('+'));
            let less = after_key(b, Key::Char('-'));
            &&& more.size == b.size + 2 || (b.size == 80 && more.size == 80)
            &&& less.size + 2 == b.size || (b.size == 8 && less.size == 8)
            &&& more.message == "preview size: "@ + text::digits(more.size) + "px"@
            &&& less.message == "preview size: "@ + text::digits(less.size) + "px"@
            &&& more.cache.dom().is_empty() && less.cache.dom().is_empty()
            &&& more == (BrowserView {
                size: more.size,
                message: more.message,
                cache: more.cache,
                ..b
            })
            &&& less == (BrowserView {
                size: less.size,
                message: less.message,
                cache: less.cache,
                ..b
            })
        }),
{
}

/// The brackets select the profile before and the one behind. The new profile is said, the
/// previews are gone, and nothing else changes.
pub proof fn law_profiles(b: BrowserView)
    ensures
        ({
            let next = after_key(b, Key::Char(']'));
            let prev = after_key(b, Key::Char('['));
            &&& next.profile == profile::next_profile(b.profile)
            &&& prev.profile == profile::prev_profile(b.profile)
            &&& next.message == "profile: "@ + profile::profile_id(next.profile)
            &&& prev.message == "profile: "@ + profile::profile_id(prev.profile)
            &&& next.cache.dom().is_empty() && prev.cache.dom().is_empty()
            &&& next == (BrowserView {
                profile: next.profile,
                message: next.message,
                cache: next.cache,
                ..b
            })
            &&& prev == (BrowserView {
                profile: prev.profile,
                message: prev.message,
                cache: prev.cache,
                ..b
            })
        }),
{
}

/// Reloading and copying are said; the first takes the previews away. Nothing else changes,
/// and no key that has no meaning changes anything.
pub proof fn law_other_keys(b: BrowserView, key: Key)
    ensures
        after_key(b, Key::Char('r')).message == "reloading preview"@,
        after_key(b, Key::Char('C')) == (BrowserView {
            message: "copied generate command to clipboard"@,
            ..b
        }),
        key is Up || key is Down || key == Key::Char('j') || key == Key::Char('k') || key
            == Key::Char('r') || key == Key::Char('=') || key == Key::Char('+') || key
            == Key::Char('-') || key == Key::Char('_') || key == Key::Char('[') || key
            == Key::Char(']') || key == Key::Char('C') || after_key(b, key) == b,
{
}

/// The keys for leaving, for another text, for the two searches and for copying ask for just
/// that, and no other key asks for anything.
pub proof fn law_actions(b: BrowserView, key: Key)
    ensures
        action_for(b, key) is Quit <==> key is Esc || key == Key::Char('q'),
        action_for(b, key) is AskSampleText <==> key == Key::Char('t'),
        action_for(b, key) is SearchLocal <==> key == Key::Char('s'),
        action_for(b, key) is SearchOnline <==> key == Key::Char('S'),
        action_for(b, key) is Copy <==> key == Key::Char('C'),
{
}

/// What is copied is a command that the shell reads as the tool with the family of the
/// selected font, the text, the profile and the size as they are shown.
pub proof fn law_copied_command(b: BrowserView)
    ensures
        action_for(b, Key::Char('C')) is Copy,
        ({
            let words = shell::shell_words(action_for(b, Key::Char('C'))->Copy_0);
            &&& words is Some
            &&& words->0.len() == 16
            &&& words->0[5] == "generate"@
            &&& words->0[6] == "--font"@ && words->0[7] == b.fonts[b.selected].family
            &&& words->0[8] == "--text"@ && words->0[9] == b.sample_text
            &&& words->0[10] == "--profile"@ && words->0[11] == profile::profile_id(b.profile)
            &&& words->0[12] == "--size"@ && words->0[13] == text::digits(b.size)
            &&& words->0[14] == "--output"@
        }),
{
    shell::law_command_words(b.fonts[b.selected], b.sample_text, b.size, b.profile);
}

/// A text that is given is the one that is shown from then on, and the previews of the one
/// before are gone; without one all stays but what is said.
pub proof fn law_prompt(b: BrowserView, given: Seq<char>)
    ensures
        after_prompt(b, None) == (BrowserView { message: "kept previous preview text"@, ..b }),
        after_prompt(b, Some(given)).cache.dom().is_empty(),
        after_prompt(b, Some(given)) == (BrowserView {
            sample_text: given,
            message: "updated preview text"@,
            cache: after_prompt(b, Some(given)).cache,
            ..b
        }),
{
}

/// The font that a search has found is the one that is selected from then on: it is the entry
/// that the list had for it, or it is added to the list. The previews are gone. Without one
/// all stays but what is said.
pub proof fn law_search(b: BrowserView, found: FontView, online: bool)
    ensures
        ({
            let after = after_search(b, Some(found), online);
            &&& 0 <= after.selected < after.fonts.len()
            &&& catalog::same(after.fonts[after.selected], found)
            &&& forall|i: int|
                0 <= i < after.selected ==> !catalog::same(#[trigger] after.fonts[i], found)
            &&& after.fonts == b.fonts || after.fonts == b.fonts.push(found)
            &&& after.fonts == b.fonts <==> after.selected < b.fonts.len()
            &&& after.message == (if after.selected < b.fonts.len() {
                "selected "@
            } else {
                "added "@
            }) + found.family
            &&& after.cache.dom().is_empty()
            &&& after == (BrowserView {
                fonts: after.fonts,
                selected: after.selected,
                message: after.message,
                cache: after.cache,
                ..b
            })
        }),
        after_search(b, None, true) == (BrowserView { message: "online search cancelled"@, ..b }),
        after_search(b, None, false) == (BrowserView { message: "search cancelled"@, ..b }),
{
    catalog::lemma_chosen_place(b.fonts, found);
    catalog::law_choosing_selects(b.fonts, found);
    let after = after_search(b, Some(found), online);
    assert forall|i: int| 0 <= i < after.selected implies !catalog::same(
        #[trigger] after.fonts[i],
        found,
    ) by {
        assert(after.fonts[i] == b.fonts[i]);
    }
    if after.selected >= b.fonts.len() {
        assert(after.fonts.len() == b.fonts.len() + 1);
    }
}

/// The reason why the online catalog could not be loaded is said, and nothing else changes.
pub proof fn law_online_failure(b: BrowserView, reason: Seq<char>)
    ensures
        after_online_failure(b, reason) == (BrowserView {
            message: "online fonts unavailable: "@ + reason,
            ..b
        }),
{
}

/// When a preview was made its font, size and profile are said, and when it could not be made
/// its font and the reason. But for this and the preview nothing changes.
pub proof fn law_preview_is_said(b: BrowserView, made: Result<Seq<char>, Seq<char>>)
    ensures
        after_preview(b, made).message == match made {
            Ok(_) => "loaded "@ + b.fonts[b.selected].family + " @ "@ + text::digits(b.size)
                + "px ("@ + profile::profile_id(b.profile) + ")"@,
            Err(reason) => b.fonts[b.selected].family + " ("@ + reason + ")"@,
        },
        after_preview(b, made) == (BrowserView {
            cache: after_preview(b, made).cache,
            message: after_preview(b, made).message,
            ..b
        }),
{
}

/// As long as no preview of the selected font was made for the size, the profile and the text,
/// the screen says that it is being loaded.
pub proof fn law_preview_is_loading(b: BrowserView)
    requires
        b.cache.dom().is_empty(),
    ensures
        preview_text(b) == "loading preview..."@,
{
    assert(!b.cache.dom().contains(preview_key(b)));
}

/// What stands before the first `c` of a text that is told, and so is what stands behind it.
proof fn lemma_told_by_first(a: Seq<char>, b: Seq<char>, x: Seq<char>, y: Seq<char>, c: char)
    requires
        !a.contains(c),
        !b.contains(c),
        a + seq![c] + x == b + seq![c] + y,
    ensures
        a == b,
        x == y,
{
    let s = a + seq![c] + x;
    let t = b + seq![c] + y;
    if a.len() < b.len() {
        assert(s[a.len() as int] == c);
        assert(t[a.len() as int] == b[a.len() as int]);
        assert(b.contains(b[a.len() as int]));
    }
    if b.len() < a.len() {
        assert(t[b.len() as int] == c);
        assert(s[b.len() as int] == a[b.len() as int]);
        assert(a.contains(a[b.len() as int]));
    }
    assert(a == s.subrange(0, a.len() as int));
    assert(b == t.subrange(0, b.len() as int));
    assert(x == s.subrange(a.len() as int + 1, s.len() as int));
    assert(y == t.subrange(b.len() as int + 1, t.len() as int));
}

/// A preview of a font is kept for its size, its profile and its text only: the same preview
/// is never taken for another of these.
pub proof fn law_previews_tell_their_settings(a: BrowserView, b: BrowserView)
    requires
        a.fonts[a.selected] == b.fonts[b.selected],
        preview_key(a) == preview_key(b),
    ensures
        a.size == b.size,
        a.profile == b.profile,
        a.sample_text == b.sample_text,
{
    reveal_strlit("|");
    reveal_strlit(".0|");
    let e = a.fonts[a.selected];
    let n = catalog::id(e).len() as int + 1;
    let x = text::digits(a.size);
    let y = text::digits(b.size);
    let p = profile::profile_id(a.profile);
    let q = profile::profile_id(b.profile);
    let tail_a = p + seq!['|'] + a.sample_text;
    let tail_b = q + seq!['|'] + b.sample_text;
    let rest_a = seq!['0', '|'] + tail_a;
    let rest_b = seq!['0', '|'] + tail_b;
    let key = preview_key(a);
    assert(key.subrange(n, key.len() as int) == x + seq!['.'] + rest_a);
    assert(preview_key(b).subrange(n, key.len() as int) == y + seq!['.'] + rest_b);
    text::law_digits(a.size);
    text::law_digits(b.size);
    assert forall|i: int| 0 <= i < x.len() implies x[i] != '.' by {
        assert('0' <= x[i] <= '9');
    }
    assert forall|i: int| 0 <= i < y.len() implies y[i] != '.' by {
        assert('0' <= y[i] <= '9');
    }
    lemma_told_by_first(x, y, rest_a, rest_b, '.');
    text::law_digits_tell_numbers(a.size, b.size);
    assert(rest_a.subrange(2, rest_a.len() as int) == tail_a);
    assert(rest_b.subrange(2, rest_b.len() as int) == tail_b);
    profile::lemma_names_are_letters(a.profile);
    profile::lemma_names_are_letters(b.profile);
    assert forall|i: int| 0 <= i < p.len() implies p[i] != '|' by {
        assert('a' <= p[i] <= 'z');
    }
    assert forall|i: int| 0 <= i < q.len() implies q[i] != '|' by {
        assert('a' <= q[i] <= 'z');
    }
    lemma_told_by_first(p, q, a.sample_text, b.sample_text, '|');
    profile::law_names_are_distinct(a.profile, b.profile);
}

/// The list of fonts takes what a screen has but for twenty columns, up to 38 columns.
pub proof fn law_left_width(w: int)
    requires
        0 <= w,
    ensures
        58 <= w ==> left_width(w) == 38,
        20 <= w < 58 ==> left_width(w) + 20 == w,
        w < 20 ==> left_width(w) == 0,
{
}

/// The line that sums up the state gives the number of fonts and of those that came with the
/// tool, the size, the profile, and as much of the first line of the text as fits into 36
/// characters.
pub proof fn law_status_line(b: BrowserView)
    ensures
        status_line(b) == "fonts: "@ + text::digits(b.fonts.len()) + "/"@ + text::digits(
            b.catalog_total,
        ) + "   size: "@ + text::digits(b.size) + "px   profile: "@ + profile::profile_id(b.profile)
            + "   sample: "@ + frame::truncated(frame::first_line(b.sample_text), 36),
{
}

proof fn lemma_screen_parts(b: BrowserView, w: int, h: int, k: int)
    requires
        valid(b),
        0 <= h,
        0 <= k < browser_spans(b, w, h).len(),
    ensures
        ({
            let screen = browser_spans(b, w, h);
            let rows = list_spans(b, w, h);
            let lines = preview_spans(b, w, h);
            let n = rows.len() as int;
            let m = lines.len() as int;
            &&& screen.len() == 6 + n + m + message_spans(b, w, h).len()
            &&& k < 3 ==> screen[k] == header_spans(b)[k]
            &&& 3 <= k < 3 + n ==> screen[k] == rows[k - 3]
            &&& 3 + n <= k < 6 + n ==> screen[k] == detail_spans(b, w)[k - 3 - n]
            &&& 6 + n <= k < 6 + n + m ==> screen[k] == lines[k - 6 - n]
            &&& 6 + n + m <= k ==> screen[k] == message_spans(b, w, h)[k - 6 - n - m]
        }),
{
}

/// The screen of the browser has the name of the tool, the keys and the state at its top, one
/// row for each font that fits, three rows about the selected font right of the list, the
/// lines of its preview that fit, and at its foot what is said, if anything is. It has nothing
/// else.
pub proof fn law_screen_size(b: BrowserView, w: int, h: int)
    requires
        valid(b),
        0 <= h,
    ensures
        ({
            let screen = browser_spans(b, w, h);
            let lines = text::lines(preview_text(b)).len() as int;
            let fonts = b.fonts.len() as int;
            let above = if h < 6 {
                0
            } else if h - 6 < fonts {
                h - 6
            } else {
                fonts
            };
            let beside = if h < 4 {
                0
            } else if h - 4 < lines {
                h - 4
            } else {
                lines
            };
            &&& screen.len() == 6 + above + beside + if b.message.len() > 0 {
                1int
            } else {
                0
            }
            &&& screen[0] == (SpanView {
                x: 0,
                y: 0,
                content: "TTF Rasterizer Browser"@,
                bold: true,
            })
            &&& screen[1] == (SpanView { x: 0, y: 1, content: BROWSER_HELP@, bold: false })
            &&& screen[2] == (SpanView { x: 0, y: 2, content: status_line(b), bold: false })
            &&& b.message.len() > 0 ==> screen.last() == (SpanView {
                x: 0,
                y: if h == 0 {
                    0
                } else {
                    h - 1
                },
                content: frame::truncated(b.message, w),
                bold: false,
            })
        }),
{
    let screen = browser_spans(b, w, h);
    frame::law_selected_row_is_shown(b.selected, minus(h, 6), b.fonts.len() as int);
    lemma_screen_parts(b, w, h, 0);
    lemma_screen_parts(b, w, h, 1);
    lemma_screen_parts(b, w, h, 2);
    lemma_screen_parts(b, w, h, screen.len() - 1);
}

/// The screen has a row for each font of the list that fits, in the order of the list, with a
/// mark at the selected one only, and the selected one is among them, if there is room for a
/// row.
pub proof fn law_list_is_shown(b: BrowserView, w: int, h: int, i: int)
    requires
        valid(b),
        0 <= h,
        0 <= i < b.fonts.len(),
        frame::window_start(b.selected, minus(h, 6), b.fonts.len() as int) <= i
            < frame::window_start(b.selected, minus(h, 6), b.fonts.len() as int) + minus(h, 6),
    ensures
        ({
            let screen = browser_spans(b, w, h);
            let k = 3 + i - frame::window_start(b.selected, minus(h, 6), b.fonts.len() as int);
            &&& 3 <= k < screen.len()
            &&& screen[k] == (SpanView {
                x: 0,
                y: k + 1,
                content: frame::truncated(
                    seq![
                        if i == b.selected {
                            '>'
                        } else {
                            ' '
                        },
                        ' ',
                    ] + b.fonts[i].family,
                    left_width(w),
                ),
                bold: false,
            })
        }),
{
    reveal_strlit("> ");
    reveal_strlit("  ");
    let total = b.fonts.len() as int;
    let start = frame::window_start(b.selected, minus(h, 6), total);
    let k = 3 + i - start;
    frame::law_selected_row_is_shown(b.selected, minus(h, 6), total);
    lemma_screen_parts(b, w, h, 0);
    lemma_screen_parts(b, w, h, k);
    let start_of_row = seq![
        if i == b.selected {
            '>'
        } else {
            ' '
        },
        ' ',
    ];
    assert(list_row(b, i) =~= start_of_row + b.fonts[i].family);
}

/// Two columns right of the list the screen names the family of the selected font, in bold,
/// its variant and its license.
pub proof fn law_details_are_shown(b: BrowserView, w: int, h: int)
    requires
        valid(b),
        0 <= h,
    ensures
        ({
            let screen = browser_spans(b, w, h);
            let e = b.fonts[b.selected];
            let n = 3 + list_spans(b, w, h).len() as int;
            let x = left_width(w) + 2;
            &&& n + 3 <= screen.len()
            &&& screen[n] == (SpanView { x, y: 0, content: e.family, bold: true })
            &&& screen[n + 1] == (SpanView {
                x,
                y: 1,
                content: "variant: "@ + e.variant + "  license: "@ + e.license,
                bold: false,
            })
            &&& screen[n + 2] == (SpanView { x, y: 2, content: "preview:"@, bold: false })
        }),
{
    let n = 3 + list_spans(b, w, h).len() as int;
    lemma_screen_parts(b, w, h, 0);
    lemma_screen_parts(b, w, h, n);
    lemma_screen_parts(b, w, h, n + 1);
    lemma_screen_parts(b, w, h, n + 2);
}

/// Every line of the preview that lies above the last row of the screen is shown, below the
/// three rows about the selected font, as much of it as fits right of the list.
pub proof fn law_preview_lines_are_shown(b: BrowserView, w: int, h: int, i: int)
    requires
        valid(b),
        0 <= i < text::lines(preview_text(b)).len(),
        3 + i < h - 1,
    ensures
        ({
            let screen = browser_spans(b, w, h);
            let x = left_width(w) + 2;
            exists|k: int|
                0 <= k < screen.len() && #[trigger] screen[k] == (SpanView {
                    x,
                    y: 3 + i,
                    content: frame::truncated(
                        text::lines(preview_text(b))[i],
                        if x < w {
                            w - x
                        } else {
                            0
                        },
                    ),
                    bold: false,
                })
        }),
{
    let screen = browser_spans(b, w, h);
    let k = 6 + list_spans(b, w, h).len() + i;
    lemma_screen_parts(b, w, h, 0);
    lemma_screen_parts(b, w, h, k);
    assert(screen[k] == preview_spans(b, w, h)[i]);
}

/// The question for a text shows as much of the first line of the text that is shown now as
/// fits into 64 characters, in square brackets.
pub proof fn law_prompt_text(first: Seq<char>, rest: Seq<char>)
    requires
        !first.contains('\n'),
        first.len() <= 64,
    ensures
        prompt_text(first) == "Preview text (single line, blank keeps current) ["@ + first
            + "]: "@,
        (first.len() == 0 || first.last() != '\r') ==> prompt_text(first + seq!['\n'] + rest)
            == prompt_text(first),
{
    frame::law_first_line(first, rest);
}

/// The browser is seen with all of its state.
pub proof fn law_browser_view(b: Browser, i: int)
    ensures
        b@.fonts.len() == b.fonts@.len(),
        0 <= i < b.fonts@.len() ==> b@.fonts[i] == b.fonts@[i]@,
        b@.catalog_total == b.catalog_total,
        b@.selected == b.selected,
        b@.cache == b.preview_cache@,
        b@.message == b.message@,
        b@.sample_text == b.sample_text@,
        b@.size == b.preview_size,
        b@.profile == b.profile,
{
}

/// What comes from outside is seen as it is: a font that was found, a preview or the reason why
/// there is none, and the text that is to be copied.
pub proof fn law_event_views(entry: FontEntry, content: String)
    ensures
        font_view(Some(entry)) == Some(entry@),
        font_view(None) is None,
        result_text(Ok(content)) == Result::<Seq<char>, Seq<char>>::Ok(content@),
        result_text(Err(content)) == Result::<Seq<char>, Seq<char>>::Err(content@),
        Action::Copy(content)@ == ActionView::Copy(content@),
        Action::Stay@ is Stay,
        Action::Quit@ is Quit,
        Action::AskSampleText@ is AskSampleText,
        Action::SearchLocal@ is SearchLocal,
        Action::SearchOnline@ is SearchOnline,
{
}

/// A text that neither starts nor ends with white space is the answer as it is, whatever white
/// space is typed around it, and white space alone is no answer.
pub proof fn law_answer(before: Seq<char>, given: Seq<char>, after: Seq<char>)
    requires
        forall|i: int| 0 <= i < before.len() ==> text::white_space(#[trigger] before[i]),
        forall|i: int| 0 <= i < after.len() ==> text::white_space(#[trigger] after[i]),
        given.len() > 0 ==> !text::white_space(given[0]) && !text::white_space(given.last()),
    ensures
        given.len() > 0 ==> answer_of(before + given + after) == Some(given),
        given.len() == 0 ==> answer_of(before + given + after) is None,
{
    text::law_trim_takes_around(before, given, after);
}

/// Every browser with a selected font and an even size from 8 to 80 pixels can take keys and
/// be drawn, whatever else it holds.
pub proof fn law_valid(b: BrowserView, half: int)
    requires
        0 <= b.selected < b.fonts.len(),
        4 <= half <= 40,
        b.size == 2 * half,
    ensures
        valid(b),
{
}

} // verus!
