//! The key of the online catalog: where it is looked for and how it is read.

use vstd::prelude::*;
use crate::text;

verus! {

/// The variable that holds the key.
pub const KEY_NAME: &'static str = "GOOGLE_FONTS_API_KEY";

/// The variable that holds the key where `KEY_NAME` does not.
pub const FALLBACK_KEY_NAME: &'static str = "SHELL_QUEST_GOOGLE_FONTS_API_KEY";

/// What stands in front of a variable that is exported.
pub const EXPORT: &'static str = "export ";

/// A line of a shell file without the white space around it and without `export`.
pub open spec fn statement(line: Seq<char>) -> Seq<char> {
    let t = text::trim(line);
    if text::occurs_at(t, EXPORT@, 0) {
        t.subrange(EXPORT@.len() as int, t.len() as int)
    } else {
        t
    }
}

/// A line with nothing on it, or with a comment.
pub open spec fn idle(line: Seq<char>) -> bool {
    text::trim(line).len() == 0 || text::trim(line)[0] == '#'
}

/// The name and the value of an assignment, each without the white space around it.
pub open spec fn assignment(line: Seq<char>) -> Option<(Seq<char>, Seq<char>)> {
    let body = statement(line);
    let k = text::span_before(body, '=') as int;
    if idle(line) || k == body.len() {
        None
    } else {
        Some(
            (
                text::trim(body.subrange(0, k)),
                text::trim(body.subrange(k + 1, body.len() as int)),
            ),
        )
    }
}

/// A value that starts and ends with the same quote.
pub open spec fn in_quotes(value: Seq<char>) -> bool {
    value.len() > 0 && ((value[0] == '"' && value.last() == '"') || (value[0] == '\''
        && value.last() == '\''))
}

/// What a value stands for: what is between its quotes, where it has any.
pub open spec fn meaning(value: Seq<char>) -> Seq<char> {
    if in_quotes(value) {
        text::trim(value.subrange(1, value.len() - 1))
    } else {
        value
    }
}

/// The line gives the variable `key` one quote and nothing else.
pub open spec fn lone_quote(line: Seq<char>, key: Seq<char>) -> bool {
    match assignment(line) {
        Some((name, value)) => name == key && value.len() == 1 && in_quotes(value),
        None => false,
    }
}

/// What a line gives the variable `key`, unless it is nothing.
pub open spec fn exported(line: Seq<char>, key: Seq<char>) -> Option<Seq<char>> {
    match assignment(line) {
        Some((name, value)) => if name == key && meaning(value).len() > 0 {
            Some(meaning(value))
        } else {
            None
        },
        None => None,
    }
}

/// The name and the value of an assignment.
fn split_assignment(line: &str) -> (r: Option<(String, Vec<char>)>)
    ensures
        match r {
            Some((name, value)) => assignment(line@) == Some((name@, value@)),
            None => assignment(line@) is None,
        },
{
    let whole = text::chars_of(text::trim_text(line).as_str());
    if whole.len() == 0 || whole[0] == '#' {
        return None;
    }
    let export = text::chars_of(EXPORT);
    let from: usize = if text::stands_at(&whole, &export, 0) {
        export.len()
    } else {
        0
    };
    let ghost body = statement(line@);
    assert(body == whole@.subrange(from as int, whole.len() as int));
    let k: usize = text::count_before(&whole, from, '=');
    if from + k == whole.len() {
        return None;
    }
    let name = text::text_of(&whole, from, from + k);
    assert(name@ == body.subrange(0, k as int));
    let value = text::text_of(&whole, from + k + 1, whole.len());
    assert(value@ == body.subrange(k + 1, body.len() as int));
    Some((text::trim_text(name.as_str()), text::chars_of(text::trim_text(value.as_str()).as_str())))
}

/// Whether a value starts and ends with the same quote.
fn is_in_quotes(value: &Vec<char>) -> (r: bool)
    ensures
        r == in_quotes(value@),
{
    if value.len() == 0 {
        return false;
    }
    let first = value[0];
    let last = value[value.len() - 1];
    (first == '"' && last == '"') || (first == '\'' && last == '\'')
}

/// Whether a line gives the variable `key` one quote and nothing else.
pub fn has_lone_quote(line: &str, key: &str) -> (r: bool)
    ensures
        r == lone_quote(line@, key@),
{
    match split_assignment(line) {
        Some((name, value)) => text::same_text(name.as_str(), key) && value.len() == 1
            && is_in_quotes(&value),
        None => false,
    }
}

/// What a line of a shell file gives the variable `key`: the value of its assignment,
/// without quotes and without the white space around it, unless nothing is left of it.
pub fn parse_export_var(line: &str, key: &str) -> (r: Option<String>)
    requires
        !lone_quote(line@, key@),
    ensures
        match r {
            Some(value) => exported(line@, key@) == Some(value@),
            None => exported(line@, key@) is None,
        },
{
    match split_assignment(line) {
        Some((name, value)) => {
            if !text::same_text(name.as_str(), key) || value.len() == 0 {
                return None;
            }
            let whole = text::text_of(&value, 0, value.len());
            assert(value@.subrange(0, value.len() as int) == value@);
            let found = if is_in_quotes(&value) {
                text::trim_text(text::text_of(&value, 1, value.len() - 1).as_str())
            } else {
                whole
            };
            if found.as_str().is_empty() {
                None
            } else {
                Some(found)
            }
        },
        None => None,
    }
}

/// How a search for the key ends.
#[derive(Debug)]
pub enum KeySearch {
    /// With the key.
    Found(String),
    /// Without a key.
    Missing,
    /// At a line that gives the key one quote and nothing else.
    LoneQuote,
}

/// How a search for the key ends, as texts.
pub enum KeySearchView {
    Found(Seq<char>),
    Missing,
    LoneQuote,
}

impl View for KeySearch {
    type V = KeySearchView;

    open spec fn view(&self) -> KeySearchView {
        match *self {
            KeySearch::Found(key) => KeySearchView::Found(key@),
            KeySearch::Missing => KeySearchView::Missing,
            KeySearch::LoneQuote => KeySearchView::LoneQuote,
        }
    }
}

/// What one line of a shell file has of the key, under either of its names.
pub open spec fn key_in_line(line: Seq<char>) -> KeySearchView {
    if lone_quote(line, KEY_NAME@) || lone_quote(line, FALLBACK_KEY_NAME@) {
        KeySearchView::LoneQuote
    } else {
        match (exported(line, KEY_NAME@), exported(line, FALLBACK_KEY_NAME@)) {
            (Some(key), _) => KeySearchView::Found(key),
            (None, Some(key)) => KeySearchView::Found(key),
            (None, None) => KeySearchView::Missing,
        }
    }
}

/// What the first line with the key has of it.
pub open spec fn key_in_lines(ls: Seq<Seq<char>>) -> KeySearchView
    decreases ls.len(),
{
    if ls.len() == 0 {
        KeySearchView::Missing
    } else if key_in_line(ls[0]) is Missing {
        key_in_lines(ls.subrange(1, ls.len() as int))
    } else {
        key_in_line(ls[0])
    }
}

/// Looks for the key in one line.
fn find_key_in_line(line: &str) -> (r: KeySearch)
    ensures
        r@ == key_in_line(line@),
{
    if has_lone_quote(line, KEY_NAME) || has_lone_quote(line, FALLBACK_KEY_NAME) {
        return KeySearch::LoneQuote;
    }
    match parse_export_var(line, KEY_NAME) {
        Some(key) => KeySearch::Found(key),
        None => match parse_export_var(line, FALLBACK_KEY_NAME) {
            Some(key) => KeySearch::Found(key),
            None => KeySearch::Missing,
        },
    }
}

/// Looks for the key in a shell file.
pub fn find_key_in_file(raw: &str) -> (r: KeySearch)
    ensures
        r@ == key_in_lines(text::lines(raw@)),
{
    let lines = text::lines_of(raw);
    let ghost ls = text::lines(raw@);
    let mut i: usize = 0;
    assert(ls.subrange(0, ls.len() as int) == ls);
    while i < lines.len()
        invariant
            i <= lines.len(),
            ls == text::lines(raw@),
            ls == text::texts(lines@),
            key_in_lines(ls) == key_in_lines(ls.subrange(i as int, ls.len() as int)),
        decreases lines.len() - i,
    {
        let ghost rest = ls.subrange(i as int, ls.len() as int);
        assert(rest[0] == lines[i as int]@);
        assert(rest.subrange(1, rest.len() as int) == ls.subrange(i + 1, ls.len() as int));
        match find_key_in_line(lines[i].as_str()) {
            KeySearch::Missing => {},
            found => {
                return found;
            },
        }
        i = i + 1;
    }
    KeySearch::Missing
}

/// The key that the variables of the environment hold: the first that is not blank,
/// without the white space around it.
pub open spec fn key_in_variables(vars: Seq<Option<Seq<char>>>) -> Option<Seq<char>>
    decreases vars.len(),
{
    if vars.len() == 0 {
        None
    } else {
        match vars[0] {
            Some(value) => if text::trim(value).len() > 0 {
                Some(text::trim(value))
            } else {
                key_in_variables(vars.subrange(1, vars.len() as int))
            },
            None => key_in_variables(vars.subrange(1, vars.len() as int)),
        }
    }
}

/// The texts of strings that may be missing.
pub open spec fn option_texts(v: Seq<Option<String>>) -> Seq<Option<Seq<char>>> {
    Seq::new(v.len(), |i: int| text::option_text(v[i]))
}

/// What to do next in the search for the key.
#[derive(Debug)]
pub enum KeyStep {
    /// The search has ended.
    Done(KeySearch),
    /// The file with this number is next.
    Read(usize),
}

/// The step to the file with the number `next` of `files` files.
pub open spec fn step_to(next: int, files: int, step: KeyStep) -> bool {
    if next < files {
        step matches KeyStep::Read(i) && i == next
    } else {
        step matches KeyStep::Done(KeySearch::Missing)
    }
}

/// The start of the search: the variables of the environment, in order, and then the
/// first of `files` files.
pub fn start_key_search(vars: &Vec<Option<String>>, files: usize) -> (r: KeyStep)
    ensures
        match key_in_variables(option_texts(vars@)) {
            Some(key) => {
                &&& r matches KeyStep::Done(KeySearch::Found(found))
                &&& found@ == key
            },
            None => step_to(0, files as int, r),
        },
{
    let ghost all = option_texts(vars@);
    let mut i: usize = 0;
    assert(all.subrange(0, all.len() as int) == all);
    while i < vars.len()
        invariant
            i <= vars.len(),
            all == option_texts(vars@),
            key_in_variables(all) == key_in_variables(all.subrange(i as int, all.len() as int)),
        decreases vars.len() - i,
    {
        let ghost rest = all.subrange(i as int, all.len() as int);
        assert(rest[0] == all[i as int]);
        assert(rest.subrange(1, rest.len() as int) == all.subrange(i + 1, all.len() as int));
        if let Some(value) = &vars[i] {
            let key = text::trim_text(value.as_str());
            if !key.as_str().is_empty() {
                return KeyStep::Done(KeySearch::Found(key));
            }
        }
        i = i + 1;
    }
    if files > 0 {
        KeyStep::Read(0)
    } else {
        KeyStep::Done(KeySearch::Missing)
    }
}

/// The step after the file with the number `file`, in which `found` was found.
pub open spec fn step_after(found: KeySearchView, file: int, files: int, step: KeyStep) -> bool {
    if found is Missing {
        step_to(file + 1, files, step)
    } else {
        step matches KeyStep::Done(end) && end@ == found
    }
}

/// What a file has of the key: nothing, where it is not there.
pub open spec fn key_in_file(content: Option<Seq<char>>) -> KeySearchView {
    match content {
        Some(raw) => key_in_lines(text::lines(raw)),
        None => KeySearchView::Missing,
    }
}

/// The step after the file with the number `file` of `files` files. `content` is what it
/// holds, `None` where it is not there.
pub fn continue_key_search(file: usize, files: usize, content: &Option<String>) -> (r: KeyStep)
    requires
        file < files,
    ensures
        step_after(key_in_file(text::option_text(*content)), file as int, files as int, r),
{
    if let Some(raw) = content {
        match find_key_in_file(raw.as_str()) {
            KeySearch::Missing => {},
            found => {
                return KeyStep::Done(found);
            },
        }
    }
    if file + 1 < files {
        KeyStep::Read(file + 1)
    } else {
        KeyStep::Done(KeySearch::Missing)
    }
}

/// What is said where no key was found.
pub fn missing_key_message() -> (r: String)
    ensures
        r@
            == "GOOGLE_FONTS_API_KEY not available. Set env var or add it to ~/.config/shell-quest/env.sh"@,
{
    "GOOGLE_FONTS_API_KEY not available. Set env var or add it to ~/.config/shell-quest/env.sh".to_owned()
}

/// A name that can stand in front of an equals sign: no white space around it, and no equals
/// sign in it.
pub open spec fn name_like(key: Seq<char>) -> bool {
    text::trim(key) == key && !key.contains('=')
}

/// A name that a line can start with: it is not taken for a comment or for `export`.
pub open spec fn variable_name(key: Seq<char>) -> bool {
    &&& name_like(key)
    &&& key.len() > 0 ==> key[0] != '#'
    &&& !text::occurs_at(key, EXPORT@, 0)
}

proof fn lemma_assignment(line: Seq<char>, key: Seq<char>, value: Seq<char>)
    requires
        name_like(key),
        text::trim(value) == value,
        value.len() > 0,
        !idle(line),
        statement(line) == key + seq!['='] + value,
    ensures
        assignment(line) == Some((key, value)),
{
    let body = statement(line);
    let k = key.len();
    assert forall|i: int| 0 <= i < k implies body[i] != '=' by {
        assert(body[i] == key[i]);
        assert(key.contains(key[i]));
    }
    text::lemma_span_before_is(body, '=', k);
    assert(body.subrange(0, k as int) == key);
    assert(body.subrange(k as int + 1, body.len() as int) == value);
}

proof fn lemma_bare_line(key: Seq<char>, value: Seq<char>)
    requires
        variable_name(key),
        text::trim(value) == value,
        value.len() > 0,
    ensures
        assignment(key + seq!['='] + value) == Some((key, value)),
{
    let bare = key + seq!['='] + value;
    let n = EXPORT@.len() as int;
    assert(text::trim(bare) == bare) by {
        text::lemma_trimmed_ends(key);
        text::lemma_trimmed_ends(value);
        assert(key.len() > 0 ==> bare[0] == key[0]);
        assert(bare.last() == value.last());
        text::lemma_nothing_to_trim(bare);
    }
    assert(!text::occurs_at(bare, EXPORT@, 0)) by {
        reveal_strlit("export ");
        if text::occurs_at(bare, EXPORT@, 0) {
            assert forall|i: int| 0 <= i < n implies bare[i] == EXPORT@[i] by {
                assert(bare.subrange(0, n)[i] == EXPORT@[i]);
            }
            if key.len() < n {
                assert(bare[key.len() as int] == '=');
            } else {
                assert(key.subrange(0, n) == EXPORT@);
            }
        }
    }
    assert(key.len() > 0 ==> bare[0] == key[0]);
    lemma_assignment(bare, key, value);
}

/// What is exported is the rest of its line.
proof fn lemma_export_is_cut_off(bare: Seq<char>)
    requires
        bare.len() > 0,
        !text::white_space(bare.last()),
    ensures
        !idle(EXPORT@ + bare),
        statement(EXPORT@ + bare) == bare,
{
    let long = EXPORT@ + bare;
    lemma_export_prefix(bare);
    assert(long.last() == bare.last());
    text::lemma_nothing_to_trim(long);
}

proof fn lemma_exported_line(key: Seq<char>, value: Seq<char>)
    requires
        name_like(key),
        text::trim(value) == value,
        value.len() > 0,
    ensures
        assignment(EXPORT@ + key + seq!['='] + value) == Some((key, value)),
{
    let bare = key + seq!['='] + value;
    text::lemma_trimmed_ends(value);
    assert(bare.last() == value.last());
    lemma_export_is_cut_off(bare);
    lemma_assignment(EXPORT@ + bare, key, value);
    assert(EXPORT@ + key + seq!['='] + value =~= EXPORT@ + bare);
}

proof fn lemma_export_prefix(rest: Seq<char>)
    ensures
        (EXPORT@ + rest)[0] == 'e',
        text::occurs_at(EXPORT@ + rest, EXPORT@, 0),
        (EXPORT@ + rest).subrange(EXPORT@.len() as int, (EXPORT@ + rest).len() as int) == rest,
        EXPORT@.len() == 7,
{
    reveal_strlit("export ");
    let long = EXPORT@ + rest;
    assert(long[0] == EXPORT@[0]);
    assert(long.subrange(0, EXPORT@.len() as int) == EXPORT@);
    assert(long.subrange(EXPORT@.len() as int, long.len() as int) == rest);
}

/// A value that is written after the name of its variable is read back, with `export` in
/// front and, where the line is then no comment and has no `export` of its own, without, if
/// it is not blank, has no white space around it and no quotes. It is no lone quote either
/// way.
pub proof fn law_plain_value_reads_back(key: Seq<char>, value: Seq<char>)
    requires
        name_like(key),
        text::trim(value) == value,
        value.len() > 0,
        !in_quotes(value),
    ensures
        variable_name(key) ==> exported(key + seq!['='] + value, key) == Some(value),
        variable_name(key) ==> !lone_quote(key + seq!['='] + value, key),
        exported(EXPORT@ + key + seq!['='] + value, key) == Some(value),
        !lone_quote(EXPORT@ + key + seq!['='] + value, key),
{
    if variable_name(key) {
        lemma_bare_line(key, value);
    }
    lemma_exported_line(key, value);
}

/// The same holds of a value in quotes of either kind, if it is not blank and has no white
/// space around it inside the quotes.
pub proof fn law_quoted_value_reads_back(key: Seq<char>, value: Seq<char>, quote: char)
    requires
        name_like(key),
        quote == '"' || quote == '\'',
        text::trim(value) == value,
        value.len() > 0,
    ensures
        variable_name(key) ==> exported(
            key + seq!['='] + (seq![quote] + value + seq![quote]),
            key,
        ) == Some(value),
        variable_name(key) ==> !lone_quote(
            key + seq!['='] + (seq![quote] + value + seq![quote]),
            key,
        ),
        exported(EXPORT@ + key + seq!['='] + (seq![quote] + value + seq![quote]), key) == Some(
            value,
        ),
        !lone_quote(EXPORT@ + key + seq!['='] + (seq![quote] + value + seq![quote]), key),
{
    let written = seq![quote] + value + seq![quote];
    assert(written[0] == quote && written.last() == quote);
    text::lemma_nothing_to_trim(written);
    assert(written.subrange(1, written.len() - 1) == value);
    if variable_name(key) {
        lemma_bare_line(key, written);
    }
    lemma_exported_line(key, written);
}

/// A comment gives no variable a value.
pub proof fn law_comments_give_nothing(line: Seq<char>, key: Seq<char>)
    requires
        text::trim(line).len() > 0,
        text::trim(line)[0] == '#',
    ensures
        exported(line, key) is None,
        !lone_quote(line, key),
{
}

/// White space around a line does not matter.
pub proof fn law_white_space_around_a_line(line: Seq<char>, key: Seq<char>)
    ensures
        exported(text::trim(line), key) == exported(line, key),
{
    text::law_trim_twice(line);
}

/// A value that is read is not blank and has no white space around it.
pub proof fn law_values_are_trimmed(line: Seq<char>, key: Seq<char>)
    requires
        exported(line, key) is Some,
        !lone_quote(line, key),
    ensures
        (exported(line, key)->0).len() > 0,
        text::trim(exported(line, key)->0) == exported(line, key)->0,
{
    let body = statement(line);
    let k = text::span_before(body, '=') as int;
    let value = text::trim(body.subrange(k + 1, body.len() as int));
    text::law_trim_twice(body.subrange(k + 1, body.len() as int));
    text::law_trim_twice(value.subrange(1, value.len() - 1));
}

/// How the search ends that starts at the file with the number `i`.
pub open spec fn search_from(contents: Seq<Option<Seq<char>>>, i: int) -> KeySearchView
    decreases contents.len() - i,
{
    if i < 0 || i >= contents.len() {
        KeySearchView::Missing
    } else if key_in_file(contents[i]) is Missing {
        search_from(contents, i + 1)
    } else {
        key_in_file(contents[i])
    }
}

/// Each step keeps the end of the search: the step after a file leads on to the next file,
/// from which the search ends as it would have from this one, or ends it so.
pub proof fn law_steps_keep_the_end(contents: Seq<Option<Seq<char>>>, file: int, step: KeyStep)
    requires
        0 <= file < contents.len(),
        step_after(key_in_file(contents[file]), file, contents.len() as int, step),
    ensures
        match step {
            KeyStep::Read(next) => next == file + 1 && next < contents.len() && search_from(
                contents,
                next as int,
            ) == search_from(contents, file),
            KeyStep::Done(end) => end@ == search_from(contents, file),
        },
{
    assert(search_from(contents, contents.len() as int) is Missing);
}

/// The search ends with what the first file has that has something of the key.
pub proof fn law_search_takes_the_first(contents: Seq<Option<Seq<char>>>, from: int, i: int)
    requires
        0 <= from <= i < contents.len(),
        forall|k: int| from <= k < i ==> key_in_file(#[trigger] contents[k]) is Missing,
        !(key_in_file(contents[i]) is Missing),
    ensures
        search_from(contents, from) == key_in_file(contents[i]),
    decreases i - from,
{
    if from < i {
        law_search_takes_the_first(contents, from + 1, i);
    }
}

/// A line that is written `a=b`, with or without `export` in front, and that is no comment,
/// gives the variable whose name is `a` without the white space around it what is left of `b`
/// without the white space around it, and then without quotes of one kind around that and
/// without the white space inside of them. It gives no other variable anything, and it gives
/// nothing where nothing is left.
pub proof fn law_assignment_is_read(
    line: Seq<char>,
    a: Seq<char>,
    b: Seq<char>,
    key: Seq<char>,
    inner: Seq<char>,
    quote: char,
)
    requires
        !a.contains('='),
        ({
            let whole = text::trim(line);
            ||| whole == "export "@ + a + seq!['='] + b
            ||| {
                &&& whole == a + seq!['='] + b
                &&& whole[0] != '#'
                &&& !text::occurs_at(whole, "export "@, 0)
            }
        }),
    ensures
        text::trim(a) != key ==> exported(line, key) is None && !lone_quote(line, key),
        text::trim(a) == key && text::trim(b).len() == 0 ==> exported(line, key) is None
            && !lone_quote(line, key),
        text::trim(a) == key && text::trim(b).len() > 0 && !(text::trim(b)[0] == '"' && text::trim(
            b,
        ).last() == '"') && !(text::trim(b)[0] == '\'' && text::trim(b).last() == '\'')
            ==> exported(line, key) == Some(text::trim(b)) && !lone_quote(line, key),
        text::trim(a) == key && (quote == '"' || quote == '\'') && text::trim(b) == seq![quote]
            + inner + seq![quote] ==> !lone_quote(line, key) && exported(line, key) == if text::trim(
            inner,
        ).len() == 0 {
            None
        } else {
            Some(text::trim(inner))
        },
        text::trim(a) == key && (quote == '"' || quote == '\'') && text::trim(b) == seq![quote]
            ==> lone_quote(line, key),
{
    let whole = text::trim(line);
    let body = a + seq!['='] + b;
    reveal_strlit("export ");
    if whole == "export "@ + a + seq!['='] + b {
        assert(whole == "export "@ + body);
        lemma_export_prefix(body);
    }
    assert(statement(line) == body);
    let k = a.len();
    assert forall|i: int| 0 <= i < k implies body[i] != '=' by {
        assert(body[i] == a[i]);
        assert(a.contains(a[i]));
    }
    text::lemma_span_before_is(body, '=', k);
    assert(body.subrange(0, k as int) == a);
    assert(body.subrange(k as int + 1, body.len() as int) == b);
    assert(assignment(line) == Some((text::trim(a), text::trim(b))));
    let value = text::trim(b);
    if value == seq![quote] + inner + seq![quote] {
        assert(value[0] == quote && value.last() == quote);
        assert(value.subrange(1, value.len() - 1) == inner);
    }
}

/// A line without an equals sign gives no variable a value.
pub proof fn law_line_without_assignment(line: Seq<char>, key: Seq<char>)
    requires
        !text::trim(line).contains('='),
    ensures
        exported(line, key) is None,
        !lone_quote(line, key),
{
    let body = statement(line);
    let whole = text::trim(line);
    text::lemma_span_before(body, '=');
    let k = text::span_before(body, '=') as int;
    if k < body.len() {
        let d = whole.len() - body.len();
        assert(whole[d + k] == '=');
    }
}

/// A line gives nothing of the key: it assigns nothing to either of its names.
pub open spec fn without_key(line: Seq<char>) -> bool {
    forall|name: Seq<char>|
        name == "GOOGLE_FONTS_API_KEY"@ || name == "SHELL_QUEST_GOOGLE_FONTS_API_KEY"@
            ==> #[trigger] exported(line, name) is None && !lone_quote(line, name)
}

proof fn lemma_names_differ()
    ensures
        "GOOGLE_FONTS_API_KEY"@ != "SHELL_QUEST_GOOGLE_FONTS_API_KEY"@,
{
    reveal_strlit("GOOGLE_FONTS_API_KEY");
    reveal_strlit("SHELL_QUEST_GOOGLE_FONTS_API_KEY");
    assert("GOOGLE_FONTS_API_KEY"@.len() == 20);
    assert("SHELL_QUEST_GOOGLE_FONTS_API_KEY"@.len() == 32);
}

proof fn lemma_key_in_lines(ls: Seq<Seq<char>>, i: int)
    requires
        0 <= i <= ls.len(),
        forall|j: int| 0 <= j < i ==> without_key(#[trigger] ls[j]),
    ensures
        i == ls.len() ==> key_in_lines(ls) is Missing,
        i < ls.len() && !(key_in_line(ls[i]) is Missing) ==> key_in_lines(ls) == key_in_line(ls[i]),
    decreases ls.len(),
{
    if i > 0 {
        let rest = ls.subrange(1, ls.len() as int);
        assert forall|j: int| 0 <= j < i - 1 implies without_key(#[trigger] rest[j]) by {
            assert(rest[j] == ls[j + 1]);
        }
        assert(without_key(ls[0]));
        assert(exported(ls[0], "GOOGLE_FONTS_API_KEY"@) is None);
        assert(exported(ls[0], "SHELL_QUEST_GOOGLE_FONTS_API_KEY"@) is None);
        lemma_key_in_lines(rest, i - 1);
        if i < ls.len() {
            assert(rest[i - 1] == ls[i]);
        }
    }
}

/// A file that gives a value to one of the two names of the key, in a line before which no
/// other one does so, gives the key exactly this value, character by character.
pub proof fn law_file_gives_the_key(raw: Seq<char>, i: int, name: Seq<char>, value: Seq<char>)
    requires
        0 <= i < text::lines(raw).len(),
        forall|j: int| 0 <= j < i ==> without_key(#[trigger] text::lines(raw)[j]),
        name == "GOOGLE_FONTS_API_KEY"@ || name == "SHELL_QUEST_GOOGLE_FONTS_API_KEY"@,
        exported(text::lines(raw)[i], name) == Some(value),
        !lone_quote(text::lines(raw)[i], name),
    ensures
        key_in_lines(text::lines(raw)) == KeySearchView::Found(value),
        key_in_file(Some(raw)) == KeySearchView::Found(value),
{
    let ls = text::lines(raw);
    lemma_names_differ();
    lemma_key_in_lines(ls, i);
}

/// The key can be written behind either of its names, with or without `export` in front and
/// with or without quotes of either kind around it: a file with such a line, before which no
/// other line gives the key, gives the key as it was written.
pub proof fn law_written_key_is_found(
    raw: Seq<char>,
    i: int,
    name: Seq<char>,
    value: Seq<char>,
    quote: char,
)
    requires
        0 <= i < text::lines(raw).len(),
        forall|j: int| 0 <= j < i ==> without_key(#[trigger] text::lines(raw)[j]),
        name == "GOOGLE_FONTS_API_KEY"@ || name == "SHELL_QUEST_GOOGLE_FONTS_API_KEY"@,
        quote == '"' || quote == '\'',
        value.len() > 0,
        !text::white_space(value[0]),
        !text::white_space(value.last()),
        ({
            let line = text::lines(raw)[i];
            let plain = name + seq!['='] + value;
            let quoted = name + seq!['='] + (seq![quote] + value + seq![quote]);
            ||| line == quoted
            ||| line == "export "@ + quoted
            ||| !in_quotes(value) && (line == plain || line == "export "@ + plain)
        }),
    ensures
        key_in_lines(text::lines(raw)) == KeySearchView::Found(value),
        key_in_file(Some(raw)) == KeySearchView::Found(value),
{
    let line = text::lines(raw)[i];
    let marked = seq![quote] + value + seq![quote];
    lemma_key_names(name);
    text::lemma_nothing_to_trim(value);
    assert("export "@ + name + seq!['='] + value == "export "@ + (name + seq!['='] + value));
    assert("export "@ + name + seq!['='] + marked == "export "@ + (name + seq!['='] + marked));
    law_quoted_value_reads_back(name, value, quote);
    if !in_quotes(value) {
        law_plain_value_reads_back(name, value);
    }
    law_file_gives_the_key(raw, i, name, value);
}

proof fn lemma_key_names(name: Seq<char>)
    requires
        name == "GOOGLE_FONTS_API_KEY"@ || name == "SHELL_QUEST_GOOGLE_FONTS_API_KEY"@,
    ensures
        variable_name(name),
{
    reveal_strlit("GOOGLE_FONTS_API_KEY");
    reveal_strlit("SHELL_QUEST_GOOGLE_FONTS_API_KEY");
    reveal_strlit("export ");
    text::lemma_nothing_to_trim(name);
    assert(!name.contains('='));
    if text::occurs_at(name, "export "@, 0) {
        assert(name.subrange(0, 7)[0] == "export "@[0]);
    }
}

/// A file in which no line gives the key has none, and so has a file that is not there.
pub proof fn law_file_without_the_key(raw: Seq<char>)
    requires
        forall|j: int| 0 <= j < text::lines(raw).len() ==> without_key(#[trigger] text::lines(raw)[j]),
    ensures
        key_in_file(Some(raw)) is Missing,
        key_in_lines(text::lines(raw)) is Missing,
        key_in_file(None) is Missing,
{
    lemma_key_in_lines(text::lines(raw), text::lines(raw).len() as int);
}

/// A line that gives one of the names of the key one quote and nothing else ends the search,
/// where no line before it gives the key.
pub proof fn law_lone_quote_ends_the_search(raw: Seq<char>, i: int, name: Seq<char>)
    requires
        0 <= i < text::lines(raw).len(),
        forall|j: int| 0 <= j < i ==> without_key(#[trigger] text::lines(raw)[j]),
        name == "GOOGLE_FONTS_API_KEY"@ || name == "SHELL_QUEST_GOOGLE_FONTS_API_KEY"@,
        lone_quote(text::lines(raw)[i], name),
    ensures
        key_in_file(Some(raw)) is LoneQuote,
{
    lemma_key_in_lines(text::lines(raw), i);
}

/// The first variable of the environment that is set and has more than white space gives the
/// key: what it holds, without the white space around it. Where there is none, the variables
/// give no key.
pub proof fn law_variables_give_the_key(vars: Seq<Option<Seq<char>>>, i: int)
    requires
        0 <= i <= vars.len(),
        forall|j: int|
            0 <= j < i ==> (#[trigger] vars[j] is None || text::trim(vars[j]->0).len() == 0),
    ensures
        i == vars.len() ==> key_in_variables(vars) is None,
        i < vars.len() && vars[i] is Some && text::trim(vars[i]->0).len() > 0 ==> key_in_variables(
            vars,
        ) == Some(text::trim(vars[i]->0)),
    decreases vars.len(),
{
    if i > 0 {
        let rest = vars.subrange(1, vars.len() as int);
        assert forall|j: int| 0 <= j < i - 1 implies (#[trigger] rest[j] is None || text::trim(
            rest[j]->0,
        ).len() == 0) by {
            assert(rest[j] == vars[j + 1]);
        }
        assert(vars[0] is None || text::trim(vars[0]->0).len() == 0);
        law_variables_give_the_key(rest, i - 1);
        if i < vars.len() {
            assert(rest[i - 1] == vars[i]);
        }
    }
}

/// The search for the key goes from one file to the next until one has something of the key,
/// and ends without a key behind the last one.
pub proof fn law_search_goes_through_the_files(
    found: KeySearchView,
    file: int,
    files: int,
    step: KeyStep,
)
    requires
        step_after(found, file, files, step),
    ensures
        match found {
            KeySearchView::Missing => if file + 1 < files {
                step matches KeyStep::Read(next) && next == file + 1
            } else {
                step matches KeyStep::Done(KeySearch::Missing)
            },
            KeySearchView::Found(key) => {
                &&& step matches KeyStep::Done(KeySearch::Found(said))
                &&& said@ == key
            },
            KeySearchView::LoneQuote => step matches KeyStep::Done(KeySearch::LoneQuote),
        },
{
}

/// The search starts with the first file, and ends at once where there is none.
pub proof fn law_search_starts_with_the_first_file(files: int, step: KeyStep)
    requires
        step_to(0, files, step),
    ensures
        0 < files ==> (step matches KeyStep::Read(next) && next == 0),
        files <= 0 ==> (step matches KeyStep::Done(KeySearch::Missing)),
{
}

/// The end of a search is seen as it is, with the key that was found.
pub proof fn law_key_search_view(key: String)
    ensures
        KeySearch::Found(key)@ == KeySearchView::Found(key@),
        KeySearch::Missing@ is Missing,
        KeySearch::LoneQuote@ is LoneQuote,
{
}

/// The variables of the environment are seen as they are, each at its place.
pub proof fn law_option_texts(v: Seq<Option<String>>, i: int)
    requires
        0 <= i < v.len(),
    ensures
        option_texts(v).len() == v.len(),
        option_texts(v)[i] == match v[i] {
            Some(value) => Some(value@),
            None => None,
        },
{
}

} // verus!
