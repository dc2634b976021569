//! Names for files, words for the shell and text for the clipboard.

use vstd::prelude::*;
use crate::catalog::{FontEntry, FontView};
use crate::profile;
use crate::profile::RasterProfile;
use crate::text;

verus! {

/// An ASCII letter or digit.
pub open spec fn alphanumeric(c: char) -> bool {
    'a' <= c <= 'z' || 'A' <= c <= 'Z' || '0' <= c <= '9'
}

/// The small form of each ASCII letter and digit, and one dash for each run of other
/// characters.
pub open spec fn dashed(s: Seq<char>) -> Seq<char>
    decreases s.len(),
{
    if s.len() == 0 {
        s
    } else {
        let before = dashed(s.drop_last());
        if alphanumeric(s.last()) {
            before.push(text::lower(s.last()))
        } else if before.len() > 0 && before.last() == '-' {
            before
        } else {
            before.push('-')
        }
    }
}

/// `s` without the dashes at its start.
pub open spec fn without_dash_start(s: Seq<char>) -> Seq<char>
    decreases s.len(),
{
    if s.len() > 0 && s[0] == '-' {
        without_dash_start(s.subrange(1, s.len() as int))
    } else {
        s
    }
}

/// `s` without the dashes at its end.
pub open spec fn without_dash_end(s: Seq<char>) -> Seq<char>
    decreases s.len(),
{
    if s.len() > 0 && s.last() == '-' {
        without_dash_end(s.drop_last())
    } else {
        s
    }
}

/// The name of a text that is safe in a file name.
pub open spec fn slug(s: Seq<char>) -> Seq<char> {
    without_dash_end(without_dash_start(dashed(s)))
}

/// The name of a text that is safe in a file name: its ASCII letters, small, and digits,
/// with one dash for each run of other characters between them.
pub fn slugify(input: &str) -> (r: String)
    ensures
        r@ == slug(input@),
{
    let chars = text::chars_of(input);
    let mut body: Vec<char> = Vec::new();
    let mut i: usize = 0;
    while i < chars.len()
        invariant
            i <= chars.len(),
            body@ == dashed(chars@.subrange(0, i as int)),
        decreases chars.len() - i,
    {
        assert(chars@.subrange(0, i + 1).drop_last() == chars@.subrange(0, i as int));
        let c = chars[i];
        if ('a' <= c && c <= 'z') || ('A' <= c && c <= 'Z') || ('0' <= c && c <= '9') {
            body.push(text::lower_char(c));
        } else if body.len() == 0 || body[body.len() - 1] != '-' {
            body.push('-');
        }
        i = i + 1;
    }
    assert(chars@.subrange(0, chars.len() as int) == chars@);
    let n: usize = body.len();
    let mut from: usize = 0;
    assert(body@.subrange(0, n as int) == body@);
    while from < n && body[from] == '-'
        invariant
            from <= n == body.len(),
            without_dash_start(body@) == without_dash_start(
                body@.subrange(from as int, n as int),
            ),
        decreases n - from,
    {
        assert(body@.subrange(from as int, n as int).subrange(1, (n - from) as int)
            == body@.subrange(from + 1, n as int));
        from = from + 1;
    }
    assert(without_dash_start(body@) == body@.subrange(from as int, n as int));
    let mut to: usize = n;
    while to > from && body[to - 1] == '-'
        invariant
            from <= to <= n == body.len(),
            slug(input@) == without_dash_end(body@.subrange(from as int, to as int)),
        decreases to,
    {
        assert(body@.subrange(from as int, to as int).drop_last() == body@.subrange(
            from as int,
            to - 1,
        ));
        to = to - 1;
    }
    text::text_of(&body, from, to)
}

/// A character of a slug.
pub open spec fn slug_char(c: char) -> bool {
    'a' <= c <= 'z' || '0' <= c <= '9' || c == '-'
}

/// Small ASCII letters, digits and dashes, with no two dashes side by side.
pub open spec fn slug_shape(s: Seq<char>) -> bool {
    &&& forall|i: int| 0 <= i < s.len() ==> slug_char(#[trigger] s[i])
    &&& forall|i: int| 0 < i < s.len() ==> !(s[i - 1] == '-' && #[trigger] s[i] == '-')
}

proof fn lemma_dashed_shape(s: Seq<char>)
    ensures
        slug_shape(dashed(s)),
    decreases s.len(),
{
    if s.len() > 0 {
        lemma_dashed_shape(s.drop_last());
    }
}

proof fn lemma_dashes_cut(s: Seq<char>)
    requires
        slug_shape(s),
    ensures
        ({
            let r = without_dash_end(without_dash_start(s));
            &&& slug_shape(r)
            &&& r.len() > 0 ==> r[0] != '-' && r.last() != '-'
        }),
    decreases s.len(),
{
    if s.len() > 0 && s[0] == '-' {
        lemma_dashes_cut(s.subrange(1, s.len() as int));
    } else if s.len() > 0 && s.last() == '-' {
        let shorter = s.drop_last();
        assert(s.len() > 1);
        assert(shorter[0] == s[0]);
        assert(without_dash_start(shorter) == shorter);
        lemma_dashes_cut(shorter);
    }
}

proof fn lemma_dashed_keeps_shape(s: Seq<char>)
    requires
        slug_shape(s),
    ensures
        dashed(s) == s,
    decreases s.len(),
{
    if s.len() > 0 {
        let shorter = s.drop_last();
        assert forall|i: int| 0 < i < shorter.len() implies !(shorter[i - 1] == '-'
            && #[trigger] shorter[i] == '-') by {
            assert(s[i] == shorter[i]);
        }
        lemma_dashed_keeps_shape(shorter);
        assert(slug_char(s[s.len() - 1]));
        assert(s == shorter.push(s.last()));
    }
}

/// A slug is safe in a file name: it holds small ASCII letters, digits and single dashes
/// only, and neither starts nor ends with a dash.
pub proof fn law_slug_is_safe(s: Seq<char>)
    ensures
        slug_shape(slug(s)),
        slug(s).len() > 0 ==> slug(s)[0] != '-' && slug(s).last() != '-',
{
    lemma_dashed_shape(s);
    lemma_dashes_cut(dashed(s));
}

/// The slug of a slug is that slug.
pub proof fn law_slug_of_slug(s: Seq<char>)
    ensures
        slug(slug(s)) == slug(s),
{
    law_slug_is_safe(s);
    lemma_dashed_keeps_shape(slug(s));
}

/// The case of ASCII letters does not matter to a slug.
pub proof fn law_slug_ignores_case(s: Seq<char>)
    ensures
        slug(text::lowered(s)) == slug(s),
{
    lemma_dashed_ignores_case(s);
}

proof fn lemma_dashed_ignores_case(s: Seq<char>)
    ensures
        dashed(text::lowered(s)) == dashed(s),
    decreases s.len(),
{
    if s.len() > 0 {
        assert(text::lowered(s).drop_last() == text::lowered(s.drop_last()));
        lemma_dashed_ignores_case(s.drop_last());
    }
}

/// The runs of ASCII letters and digits in a text, each as long as it can be, in order.
pub open spec fn runs(s: Seq<char>) -> Seq<Seq<char>>
    decreases s.len(),
{
    if s.len() == 0 {
        Seq::empty()
    } else {
        let before = runs(s.drop_last());
        if !alphanumeric(s.last()) {
            before
        } else if s.len() > 1 && alphanumeric(s[s.len() - 2]) {
            before.drop_last().push(before.last().push(s.last()))
        } else {
            before.push(seq![s.last()])
        }
    }
}

/// The runs of a text in small letters, with a dash between each two.
spec fn joined_runs(s: Seq<char>) -> Seq<char> {
    text::lowered(text::join(runs(s), "-"@))
}

proof fn lemma_dash_start_of_longer(s: Seq<char>, c: char)
    ensures
        without_dash_start(s.push(c)) == if without_dash_start(s).len() > 0 {
            without_dash_start(s).push(c)
        } else if c == '-' {
            Seq::empty()
        } else {
            seq![c]
        },
    decreases s.len(),
{
    if s.len() == 0 {
        assert(s.push(c).subrange(1, 1) == Seq::<char>::empty());
        assert(without_dash_start(Seq::empty()) == Seq::<char>::empty());
    } else if s[0] == '-' {
        let rest = s.subrange(1, s.len() as int);
        lemma_dash_start_of_longer(rest, c);
        assert(s.push(c).subrange(1, s.len() as int + 1) == rest.push(c));
    }
}

/// Up to its end a dashed text is its runs; a dash follows where other characters do.
proof fn lemma_dashed_runs(s: Seq<char>)
    ensures
        s.len() > 0 && alphanumeric(s.last()) ==> runs(s).len() > 0,
        runs(s).len() > 0 ==> joined_runs(s).len() > 0 && joined_runs(s).last() != '-',
        without_dash_start(dashed(s)) == if runs(s).len() == 0 {
            Seq::empty()
        } else if alphanumeric(s.last()) {
            joined_runs(s)
        } else {
            joined_runs(s).push('-')
        },
    decreases s.len(),
{
    reveal_strlit("-");
    if s.len() > 0 {
        let p = s.drop_last();
        let c = s.last();
        let before = runs(p);
        lemma_dashed_runs(p);
        lemma_dash_start_of_longer(dashed(p), text::lower(c));
        lemma_dash_start_of_longer(dashed(p), '-');
        if alphanumeric(c) {
            let now = runs(s);
            assert(text::lower(c) != '-');
            if s.len() > 1 && alphanumeric(s[s.len() - 2]) {
                assert(p.last() == s[s.len() - 2]);
                assert(now.drop_last() == before.drop_last());
                assert(text::join(now, "-"@) == text::join(before, "-"@).push(c));
                assert(joined_runs(s) == joined_runs(p).push(text::lower(c)));
            } else if before.len() == 0 {
                assert(now[0] == seq![c]);
                assert(text::join(now, "-"@) == seq![c]);
                assert(joined_runs(s) == seq![text::lower(c)]);
            } else {
                assert(now.drop_last() == before);
                assert(text::join(now, "-"@) == text::join(before, "-"@) + "-"@ + seq![c]);
                assert(joined_runs(s) == joined_runs(p).push('-').push(text::lower(c)));
            }
        }
    } else {
        assert(without_dash_start(s) == s);
    }
}

/// A slug is the runs of ASCII letters and digits of its text, in small letters, with one
/// dash between each two.
pub proof fn law_slug_joins_runs(s: Seq<char>)
    ensures
        slug(s) == text::lowered(text::join(runs(s), "-"@)),
{
    lemma_dashed_runs(s);
    let j = joined_runs(s);
    assert(j.push('-').drop_last() == j);
    if runs(s).len() == 0 {
        assert(j == Seq::<char>::empty());
        assert(slug(s) == j);
    } else {
        assert(without_dash_end(j) == j);
        assert(without_dash_end(j.push('-')) == without_dash_end(j.push('-').drop_last()));
    }
}

/// A single quote inside single quotes: the quotes are closed, a quoted quote follows,
/// and they are opened again.
pub open spec fn escaped_char(c: char) -> Seq<char> {
    if c == '\'' {
        seq!['\'', '"', '\'', '"', '\'']
    } else {
        seq![c]
    }
}

/// A text as it is written inside single quotes.
pub open spec fn escaped(s: Seq<char>) -> Seq<char>
    decreases s.len(),
{
    if s.len() == 0 {
        s
    } else {
        escaped_char(s[0]) + escaped(s.subrange(1, s.len() as int))
    }
}

/// A text as one word of the shell.
pub open spec fn quoted(s: Seq<char>) -> Seq<char> {
    seq!['\''] + escaped(s) + seq!['\'']
}

/// A text as one word of the shell.
pub fn shell_quote(value: &str) -> (r: String)
    ensures
        r@ == quoted(value@),
{
    let chars = text::chars_of(value);
    let mut out = String::new();
    out.push('\'');
    let mut i: usize = 0;
    assert(chars@.subrange(0, chars.len() as int) == chars@);
    while i < chars.len()
        invariant
            i <= chars.len(),
            out@ + escaped(chars@.subrange(i as int, chars.len() as int)) == seq!['\'']
                + escaped(chars@),
        decreases chars.len() - i,
    {
        let ghost rest = chars@.subrange(i as int, chars.len() as int);
        let ghost before = out@;
        assert(rest.subrange(1, rest.len() as int) == chars@.subrange(i + 1, chars.len() as int));
        if chars[i] == '\'' {
            out.push('\'');
            out.push('"');
            out.push('\'');
            out.push('"');
            out.push('\'');
        } else {
            out.push(chars[i]);
        }
        assert(out@ == before + escaped_char(rest[0]));
        assert(out@ + escaped(rest.subrange(1, rest.len() as int)) == before + escaped(rest));
        i = i + 1;
    }
    out.push('\'');
    out
}

/// How the shell reads the next character.
pub enum Quoting {
    Outside,
    Single,
    Double,
}

/// Characters that mean themselves outside quotes.
pub open spec fn bare(c: char) -> bool {
    alphanumeric(c) || c == '-' || c == '.' || c == '/' || c == '_'
}

/// The words that the shell reads in a line; `word` is what it has of the word that it is
/// in, and `None` between words. There are none where a quote is left open, or where a
/// character stands that has a meaning of its own at its place.
pub open spec fn words_from(
    line: Seq<char>,
    mode: Quoting,
    word: Option<Seq<char>>,
) -> Option<Seq<Seq<char>>>
    decreases line.len(),
{
    if line.len() == 0 {
        if !(mode is Outside) {
            None
        } else if word is Some {
            Some(seq![word->0])
        } else {
            Some(Seq::empty())
        }
    } else {
        let c = line[0];
        let rest = line.subrange(1, line.len() as int);
        let part = match word {
            Some(w) => w,
            None => Seq::empty(),
        };
        match mode {
            Quoting::Outside => if c == ' ' {
                if word is Some {
                    with_word(part, words_from(rest, Quoting::Outside, None))
                } else {
                    words_from(rest, Quoting::Outside, None)
                }
            } else if c == '\'' {
                words_from(rest, Quoting::Single, Some(part))
            } else if c == '"' {
                words_from(rest, Quoting::Double, Some(part))
            } else if bare(c) {
                words_from(rest, Quoting::Outside, Some(part.push(c)))
            } else {
                None
            },
            Quoting::Single => if c == '\'' {
                words_from(rest, Quoting::Outside, Some(part))
            } else {
                words_from(rest, Quoting::Single, Some(part.push(c)))
            },
            Quoting::Double => if c == '"' {
                words_from(rest, Quoting::Outside, Some(part))
            } else if c == '\\' || c == '$' || c == '`' || c == '!' {
                None
            } else {
                words_from(rest, Quoting::Double, Some(part.push(c)))
            },
        }
    }
}

/// The words of a line with one more word in front.
pub open spec fn with_word(word: Seq<char>, words: Option<Seq<Seq<char>>>) -> Option<
    Seq<Seq<char>>,
> {
    match words {
        Some(ws) => Some(seq![word] + ws),
        None => None,
    }
}

/// The words that the shell reads in a line.
pub open spec fn shell_words(line: Seq<char>) -> Option<Seq<Seq<char>>> {
    words_from(line, Quoting::Outside, None)
}

/// The shell reads what is escaped, up to the quote that closes it, as the text itself.
proof fn lemma_escaped_read(s: Seq<char>, rest: Seq<char>, word: Seq<char>)
    ensures
        words_from(escaped(s) + seq!['\''] + rest, Quoting::Single, Some(word)) == words_from(
            rest,
            Quoting::Outside,
            Some(word + s),
        ),
    decreases s.len(),
{
    let end = seq!['\''];
    let w0 = escaped(s) + end + rest;
    if s.len() == 0 {
        assert(w0.subrange(1, w0.len() as int) == rest);
        assert(word + s == word);
    } else {
        let tail = s.subrange(1, s.len() as int);
        let last = escaped(tail) + end + rest;
        lemma_escaped_read(tail, rest, word.push(s[0]));
        assert(word.push(s[0]) + tail == word + s);
        assert(w0 == escaped_char(s[0]) + last);
        if s[0] == '\'' {
            let w1 = seq!['"', '\'', '"', '\''] + last;
            let w2 = seq!['\'', '"', '\''] + last;
            let w3 = seq!['"', '\''] + last;
            let w4 = seq!['\''] + last;
            assert(w0.subrange(1, w0.len() as int) == w1);
            assert(w1.subrange(1, w1.len() as int) == w2);
            assert(w2.subrange(1, w2.len() as int) == w3);
            assert(w3.subrange(1, w3.len() as int) == w4);
            assert(w4.subrange(1, w4.len() as int) == last);
            let more = Some(word.push('\''));
            assert(words_from(w4, Quoting::Outside, more) == words_from(
                last,
                Quoting::Single,
                more,
            ));
            assert(words_from(w3, Quoting::Double, more) == words_from(
                w4,
                Quoting::Outside,
                more,
            ));
            assert(words_from(w2, Quoting::Double, Some(word)) == words_from(
                w3,
                Quoting::Double,
                more,
            ));
            assert(words_from(w1, Quoting::Outside, Some(word)) == words_from(
                w2,
                Quoting::Double,
                Some(word),
            ));
        } else {
            assert(w0.subrange(1, w0.len() as int) == last);
        }
    }
}

/// The shell reads a quoted text as the text itself.
proof fn lemma_quoted_read(s: Seq<char>, rest: Seq<char>)
    ensures
        shell_words(quoted(s) + rest) == words_from(rest, Quoting::Outside, Some(s)),
{
    let line = quoted(s) + rest;
    lemma_escaped_read(s, rest, Seq::empty());
    assert(line.subrange(1, line.len() as int) == escaped(s) + seq!['\''] + rest);
    assert(Seq::<char>::empty() + s == s);
}

/// The shell reads characters that mean themselves as they are.
proof fn lemma_bare_read(s: Seq<char>, rest: Seq<char>, word: Seq<char>)
    requires
        forall|i: int| 0 <= i < s.len() ==> bare(#[trigger] s[i]),
    ensures
        words_from(s + rest, Quoting::Outside, Some(word)) == words_from(
            rest,
            Quoting::Outside,
            Some(word + s),
        ),
    decreases s.len(),
{
    if s.len() == 0 {
        assert(s + rest == rest);
        assert(word + s == word);
    } else {
        let tail = s.subrange(1, s.len() as int);
        lemma_bare_read(tail, rest, word.push(s[0]));
        assert((s + rest).subrange(1, (s + rest).len() as int) == tail + rest);
        assert(word.push(s[0]) + tail == word + s);
        assert(bare(s[0]));
    }
}

/// A quoted text and a space in front of a line give it one more word.
proof fn lemma_quoted_word(s: Seq<char>, rest: Seq<char>)
    ensures
        shell_words(quoted(s) + (seq![' '] + rest)) == with_word(s, shell_words(rest)),
{
    let spaced = seq![' '] + rest;
    lemma_quoted_read(s, spaced);
    assert(spaced.subrange(1, spaced.len() as int) == rest);
}

/// A text of characters that mean themselves and a space do so too.
proof fn lemma_bare_word(s: Seq<char>, rest: Seq<char>)
    requires
        s.len() > 0,
        forall|i: int| 0 <= i < s.len() ==> bare(#[trigger] s[i]),
    ensures
        shell_words(s + (seq![' '] + rest)) == with_word(s, shell_words(rest)),
{
    let spaced = seq![' '] + rest;
    let line = s + spaced;
    lemma_bare_read(s, spaced, Seq::empty());
    assert(Seq::<char>::empty() + s == s);
    assert(line[0] == s[0]);
    assert(shell_words(line) == words_from(line, Quoting::Outside, Some(Seq::empty())));
    assert(spaced.subrange(1, spaced.len() as int) == rest);
}

/// The shell reads a quoted text as one word, and that word is the text.
pub proof fn law_shell_reads_back(s: Seq<char>)
    ensures
        shell_words(quoted(s)) == Some(seq![s]),
{
    let none = Seq::<char>::empty();
    lemma_quoted_read(s, none);
    assert(quoted(s) + none == quoted(s));
}

/// Two texts that are quoted alike are the same text.
pub proof fn law_quoting_keeps_texts_apart(a: Seq<char>, b: Seq<char>)
    requires
        quoted(a) == quoted(b),
    ensures
        a == b,
{
    law_shell_reads_back(a);
    law_shell_reads_back(b);
    assert(seq![a][0] == seq![b][0]);
}

/// The file that the command for a font writes.
pub open spec fn sprite_path(e: FontView, p: RasterProfile) -> Seq<char> {
    "mods/base/assets/fonts/"@ + slug(e.family) + "-"@ + slug(e.variant) + "-"@
        + profile::profile_id(p) + ".txt"@
}

/// The command that writes the sprite of a text in a font.
pub open spec fn generate_command(
    e: FontView,
    sample: Seq<char>,
    size: nat,
    p: RasterProfile,
) -> Seq<char> {
    "cargo run -p ttf-rasterizer -- generate --font "@ + quoted(e.family) + " --text "@ + quoted(
        sample,
    ) + " --profile "@ + profile::profile_id(p) + " --size "@ + text::digits(size)
        + " --output "@ + quoted(sprite_path(e, p))
}

/// The command that writes the sprite of a text in a font. `preview_size` is in pixels.
pub fn build_generate_command(
    entry: &FontEntry,
    sample_text: &str,
    preview_size: usize,
    profile: RasterProfile,
) -> (r: String)
    ensures
        r@ == generate_command(entry@, sample_text@, preview_size as nat, profile),
{
    let mut output = String::new();
    output.append("mods/base/assets/fonts/");
    output.append(slugify(entry.family.as_str()).as_str());
    output.append("-");
    output.append(slugify(entry.variant.as_str()).as_str());
    output.append("-");
    output.append(profile.id());
    output.append(".txt");
    let mut command = String::new();
    command.append("cargo run -p ttf-rasterizer -- generate --font ");
    command.append(shell_quote(entry.family.as_str()).as_str());
    command.append(" --text ");
    command.append(shell_quote(sample_text).as_str());
    command.append(" --profile ");
    command.append(profile.id());
    command.append(" --size ");
    command.append(text::decimal(preview_size).as_str());
    command.append(" --output ");
    command.append(shell_quote(output.as_str()).as_str());
    command
}

/// The words of the command for a font: the tool, and each option with its value as it is.
pub open spec fn command_words(
    e: FontView,
    sample: Seq<char>,
    size: nat,
    p: RasterProfile,
) -> Seq<Seq<char>> {
    seq![
        "cargo"@,
        "run"@,
        "-p"@,
        "ttf-rasterizer"@,
        "--"@,
        "generate"@,
        "--font"@,
        e.family,
        "--text"@,
        sample,
        "--profile"@,
        profile::profile_id(p),
        "--size"@,
        text::digits(size),
        "--output"@,
        sprite_path(e, p),
    ]
}

proof fn lemma_digits_are_bare(n: nat)
    ensures
        text::digits(n).len() > 0,
        forall|i: int| 0 <= i < text::digits(n).len() ==> bare(#[trigger] text::digits(n)[i]),
    decreases n,
{
    if n >= 10 {
        lemma_digits_are_bare(n / 10);
    }
}

proof fn lemma_profile_id_is_bare(p: RasterProfile)
    ensures
        profile::profile_id(p).len() > 0,
        forall|i: int|
            0 <= i < profile::profile_id(p).len() ==> bare(#[trigger] profile::profile_id(p)[i]),
{
    reveal_strlit("classic");
    reveal_strlit("dense");
    reveal_strlit("binary");
    reveal_strlit("inverted");
}

/// The options of the command, as the shell reads them.
proof fn lemma_options_read(e: FontView, sample: Seq<char>, size: nat, p: RasterProfile)
    ensures
        shell_words(
            quoted(e.family) + (" --text "@ + (quoted(sample) + (" --profile "@ + (
            profile::profile_id(p) + (" --size "@ + (text::digits(size) + (" --output "@ + quoted(
                sprite_path(e, p),
            )))))))),
        ) == Some(command_words(e, sample, size, p).subrange(7, 16)),
{
    let sp = seq![' '];
    let path = sprite_path(e, p);
    let t6 = quoted(path);
    let t5 = "--output"@ + (sp + t6);
    let t4 = text::digits(size) + (sp + t5);
    let t3 = "--size"@ + (sp + t4);
    let t2 = profile::profile_id(p) + (sp + t3);
    let t1 = "--profile"@ + (sp + t2);
    let t0 = quoted(sample) + (sp + t1);
    let t = "--text"@ + (sp + t0);
    law_shell_reads_back(path);
    assert(shell_words(t5) == with_word("--output"@, shell_words(t6))) by {
        reveal_strlit("--output");
        lemma_bare_word("--output"@, t6);
    }
    lemma_digits_are_bare(size);
    lemma_bare_word(text::digits(size), t5);
    assert(shell_words(t3) == with_word("--size"@, shell_words(t4))) by {
        reveal_strlit("--size");
        lemma_bare_word("--size"@, t4);
    }
    lemma_profile_id_is_bare(p);
    lemma_bare_word(profile::profile_id(p), t3);
    assert(shell_words(t1) == with_word("--profile"@, shell_words(t2))) by {
        reveal_strlit("--profile");
        lemma_bare_word("--profile"@, t2);
    }
    lemma_quoted_word(sample, t1);
    assert(shell_words(t) == with_word("--text"@, shell_words(t0))) by {
        reveal_strlit("--text");
        lemma_bare_word("--text"@, t0);
    }
    lemma_quoted_word(e.family, t);
    assert(" --output "@ + t6 == sp + t5) by {
        reveal_strlit("--output");
        reveal_strlit(" --output ");
    }
    assert(" --size "@ + t4 == sp + t3) by {
        reveal_strlit("--size");
        reveal_strlit(" --size ");
    }
    assert(" --profile "@ + t2 == sp + t1) by {
        reveal_strlit("--profile");
        reveal_strlit(" --profile ");
    }
    assert(" --text "@ + t0 == sp + t) by {
        reveal_strlit("--text");
        reveal_strlit(" --text ");
    }
    let words = shell_words(quoted(e.family) + (sp + t));
    assert(words->0 =~= command_words(e, sample, size, p).subrange(7, 16));
}

/// The start of the command in front of a text, word by word.
spec fn start_of(t: Seq<char>) -> Seq<char> {
    let sp = seq![' '];
    "cargo"@ + (sp + ("run"@ + (sp + ("-p"@ + (sp + ("ttf-rasterizer"@ + (sp + ("--"@ + (sp + (
    "generate"@ + (sp + ("--font"@ + (sp + t)))))))))))))
}

proof fn lemma_start_text(t: Seq<char>)
    ensures
        "cargo run -p ttf-rasterizer -- generate --font "@ + t == start_of(t),
{
    reveal_strlit("cargo run -p ttf-rasterizer -- generate --font ");
    reveal_strlit("cargo");
    reveal_strlit("run");
    reveal_strlit("-p");
    reveal_strlit("ttf-rasterizer");
    reveal_strlit("--");
    reveal_strlit("generate");
    reveal_strlit("--font");
}

proof fn lemma_start_read(t: Seq<char>)
    ensures
        shell_words(start_of(t)) == with_word(
            "cargo"@,
            with_word(
                "run"@,
                with_word(
                    "-p"@,
                    with_word(
                        "ttf-rasterizer"@,
                        with_word(
                            "--"@,
                            with_word("generate"@, with_word("--font"@, shell_words(t))),
                        ),
                    ),
                ),
            ),
        ),
{
    let sp = seq![' '];
    let t6 = "--font"@ + (sp + t);
    let t5 = "generate"@ + (sp + t6);
    let t4 = "--"@ + (sp + t5);
    let t3 = "ttf-rasterizer"@ + (sp + t4);
    let t2 = "-p"@ + (sp + t3);
    let t1 = "run"@ + (sp + t2);
    let t0 = "cargo"@ + (sp + t1);
    assert(shell_words(t6) == with_word("--font"@, shell_words(t))) by {
        reveal_strlit("--font");
        lemma_bare_word("--font"@, t);
    }
    assert(shell_words(t5) == with_word("generate"@, shell_words(t6))) by {
        reveal_strlit("generate");
        lemma_bare_word("generate"@, t6);
    }
    assert(shell_words(t4) == with_word("--"@, shell_words(t5))) by {
        reveal_strlit("--");
        lemma_bare_word("--"@, t5);
    }
    assert(shell_words(t3) == with_word("ttf-rasterizer"@, shell_words(t4))) by {
        reveal_strlit("ttf-rasterizer");
        lemma_bare_word("ttf-rasterizer"@, t4);
    }
    assert(shell_words(t2) == with_word("-p"@, shell_words(t3))) by {
        reveal_strlit("-p");
        lemma_bare_word("-p"@, t3);
    }
    assert(shell_words(t1) == with_word("run"@, shell_words(t2))) by {
        reveal_strlit("run");
        lemma_bare_word("run"@, t2);
    }
    assert(shell_words(t0) == with_word("cargo"@, shell_words(t1))) by {
        reveal_strlit("cargo");
        lemma_bare_word("cargo"@, t1);
    }
}

/// The shell reads the command for a font as the tool with its options, and the value of
/// each option is what was put in: the family, the text, the profile, the size and the
/// file, whatever characters they hold.
pub proof fn law_command_reads_back(e: FontView, sample: Seq<char>, size: nat, p: RasterProfile)
    ensures
        shell_words(generate_command(e, sample, size, p)) == Some(
            command_words(e, sample, size, p),
        ),
{
    let t = quoted(e.family) + (" --text "@ + (quoted(sample) + (" --profile "@ + (
    profile::profile_id(p) + (" --size "@ + (text::digits(size) + (" --output "@ + quoted(
        sprite_path(e, p),
    ))))))));
    lemma_options_read(e, sample, size, p);
    lemma_start_text(t);
    lemma_start_read(t);
    assert(generate_command(e, sample, size, p)
        == "cargo run -p ttf-rasterizer -- generate --font "@ + t);
    assert(shell_words(start_of(t))->0 =~= command_words(e, sample, size, p));
}

/// The words of the command for a font are sixteen: the tool, what it is to do, and then the
/// name and the value of each option, the last of which is the file that is written.
pub proof fn law_command_words(e: FontView, sample: Seq<char>, size: nat, p: RasterProfile)
    ensures
        shell_words(generate_command(e, sample, size, p)) == Some(
            seq![
                "cargo"@,
                "run"@,
                "-p"@,
                "ttf-rasterizer"@,
                "--"@,
                "generate"@,
                "--font"@,
                e.family,
                "--text"@,
                sample,
                "--profile"@,
                profile::profile_id(p),
                "--size"@,
                text::digits(size),
                "--output"@,
                sprite_path(e, p),
            ],
        ),
{
    law_command_reads_back(e, sample, size, p);
}

/// The file of a sprite lies in the directory of the fonts, and its name has the slugs of the
/// family and of the variant and the name of the profile, with a dash between each two.
pub proof fn law_sprite_path(e: FontView, p: RasterProfile)
    ensures
        sprite_path(e, p) == "mods/base/assets/fonts/"@ + text::join(
            seq![slug(e.family), slug(e.variant), profile::profile_id(p)],
            "-"@,
        ) + ".txt"@,
{
    let parts = seq![slug(e.family), slug(e.variant), profile::profile_id(p)];
    let two = parts.drop_last();
    let one = two.drop_last();
    assert(text::join(one, "-"@) == slug(e.family));
    assert(text::join(two, "-"@) == slug(e.family) + "-"@ + slug(e.variant));
    assert(text::join(parts, "-"@) == slug(e.family) + "-"@ + slug(e.variant) + "-"@
        + profile::profile_id(p));
    assert(sprite_path(e, p) =~= "mods/base/assets/fonts/"@ + text::join(parts, "-"@) + ".txt"@);
}

/// A slug without its dashes is the text without all that is no ASCII letter or digit, in
/// small letters.
pub proof fn law_slug_keeps_letters_and_digits(s: Seq<char>)
    ensures
        slug(s).filter(|c: char| c != '-') == text::lowered(s.filter(|c: char| alphanumeric(c))),
{
    lemma_dashed_letters(s);
    lemma_cut_keeps_letters(dashed(s));
}

proof fn lemma_dashed_letters(s: Seq<char>)
    ensures
        dashed(s).filter(|c: char| c != '-') == text::lowered(s.filter(|c: char| alphanumeric(c))),
    decreases s.len(),
{
    let letter = |c: char| c != '-';
    let kept = |c: char| alphanumeric(c);
    reveal(Seq::filter);
    if s.len() > 0 {
        let p = s.drop_last();
        let c = s.last();
        let before = dashed(p);
        lemma_dashed_letters(p);
        assert(before.push(text::lower(c)).drop_last() == before);
        assert(before.push('-').drop_last() == before);
        if alphanumeric(c) {
            assert(text::lower(c) != '-');
            assert(s.filter(kept) == p.filter(kept).push(c));
            assert(dashed(s).filter(letter) == before.filter(letter).push(text::lower(c)));
            assert(text::lowered(p.filter(kept).push(c)) =~= text::lowered(p.filter(kept)).push(
                text::lower(c),
            ));
        } else {
            assert(s.filter(kept) == p.filter(kept));
            assert(dashed(s).filter(letter) == before.filter(letter));
        }
    } else {
        assert(s.filter(kept) == Seq::<char>::empty());
        assert(dashed(s).filter(letter) == Seq::<char>::empty());
        assert(text::lowered(Seq::<char>::empty()) =~= Seq::<char>::empty());
    }
}

proof fn lemma_cut_keeps_letters(s: Seq<char>)
    ensures
        without_dash_end(without_dash_start(s)).filter(|c: char| c != '-') == s.filter(
            |c: char| c != '-',
        ),
{
    lemma_start_keeps_letters(s);
    lemma_end_keeps_letters(without_dash_start(s));
}

proof fn lemma_end_keeps_letters(s: Seq<char>)
    ensures
        without_dash_end(s).filter(|c: char| c != '-') == s.filter(|c: char| c != '-'),
    decreases s.len(),
{
    reveal(Seq::filter);
    if s.len() > 0 && s.last() == '-' {
        lemma_end_keeps_letters(s.drop_last());
    }
}

proof fn lemma_start_keeps_letters(s: Seq<char>)
    ensures
        without_dash_start(s).filter(|c: char| c != '-') == s.filter(|c: char| c != '-'),
    decreases s.len(),
{
    if s.len() > 0 && s[0] == '-' {
        let letter = |c: char| c != '-';
        let rest = s.subrange(1, s.len() as int);
        lemma_start_keeps_letters(rest);
        assert(s == seq!['-'] + rest);
        Seq::filter_distributes_over_add(seq!['-'], rest, letter);
        assert(seq!['-'].filter(letter) == Seq::<char>::empty()) by {
            reveal(Seq::filter);
            assert(seq!['-'].drop_last() == Seq::<char>::empty());
            assert(Seq::<char>::empty().filter(letter) == Seq::<char>::empty());
        }
        assert(Seq::<char>::empty() + rest.filter(letter) == rest.filter(letter));
    }
}

/// The letter of a group of six bits.
pub open spec fn base64_letter(v: int) -> char {
    if v < 26 {
        (v + 'A' as int) as char
    } else if v < 52 {
        (v - 26 + 'a' as int) as char
    } else if v < 62 {
        (v - 52 + '0' as int) as char
    } else if v == 62 {
        '+'
    } else {
        '/'
    }
}

/// A byte of the data, and zero behind its end.
pub open spec fn byte_or_zero(data: Seq<u8>, i: int) -> int {
    if i < data.len() {
        data[i] as int
    } else {
        0
    }
}

/// The six bits of the data from the bit `6 * i` on.
pub open spec fn six_bits(data: Seq<u8>, i: int) -> int {
    let group = byte_or_zero(data, i / 4 * 3) * 0x10000 + byte_or_zero(data, i / 4 * 3 + 1) * 0x100
        + byte_or_zero(data, i / 4 * 3 + 2);
    if i % 4 == 0 {
        group / 0x40000
    } else if i % 4 == 1 {
        group / 0x1000 % 64
    } else if i % 4 == 2 {
        group / 0x40 % 64
    } else {
        group % 64
    }
}

/// Data in Base64, as RFC 4648 has it: one letter for each six bits, and equals signs up to
/// a multiple of four letters.
pub open spec fn base64_text(data: Seq<u8>) -> Seq<char> {
    Seq::new(
        ((data.len() + 2) / 3 * 4) as nat,
        |i: int|
            if 6 * i < 8 * data.len() {
                base64_letter(six_bits(data, i))
            } else {
                '='
            },
    )
}

/// `Engine::encode` of the `base64` crate with the engine `STANDARD`: the letters of the
/// standard alphabet, with padding. It panics where the text would be longer than memory
/// can be.
#[verifier::external_body]
fn base64_encode(data: &[u8]) -> (r: String)
    requires
        (data@.len() + 2) / 3 * 4 <= isize::MAX,
    ensures
        r@ == base64_text(data@),
{
    base64::Engine::encode(&base64::engine::general_purpose::STANDARD, data)
}

/// A text as the sequence by which a terminal takes it into the clipboard.
pub open spec fn clipboard_sequence(content: Seq<char>) -> Seq<char> {
    "\x1b]52;c;"@ + base64_text(vstd::utf8::encode_utf8(content)) + "\x07"@
}

/// The sequence by which a terminal takes a text into the clipboard.
pub fn osc52_sequence(content: &str) -> (r: String)
    requires
        (vstd::utf8::encode_utf8(content@).len() + 2) / 3 * 4 <= isize::MAX,
    ensures
        r@ == clipboard_sequence(content@),
{
    let encoded = base64_encode(content.as_bytes());
    let mut out = String::new();
    out.append("\x1b]52;c;");
    out.append(encoded.as_str());
    out.append("\x07");
    out
}

proof fn lemma_six_bits(data: Seq<u8>, i: int)
    requires
        0 <= i,
    ensures
        0 <= six_bits(data, i) < 64,
{
}

/// What stands between the start of a clipboard sequence and its end is free of control
/// characters, so the sequence ends at its last character and not before.
pub proof fn law_clipboard_sequence_ends_once(content: Seq<char>, i: int)
    requires
        0 <= i < clipboard_sequence(content).len(),
    ensures
        (clipboard_sequence(content)[i] == '\x07') <==> i == clipboard_sequence(content).len() - 1,
        text::control(clipboard_sequence(content)[i]) <==> i == 0 || i == clipboard_sequence(
            content,
        ).len() - 1,
{
    reveal_strlit("\x1b]52;c;");
    reveal_strlit("\x07");
    let data = vstd::utf8::encode_utf8(content);
    let letters = base64_text(data);
    let whole = clipboard_sequence(content);
    if i < 7 {
        assert(whole[i] == "\x1b]52;c;"@[i]);
    } else if i < 7 + letters.len() {
        assert(whole[i] == letters[i - 7]);
        lemma_six_bits(data, i - 7);
    } else {
        assert(whole[i] == "\x07"@[0]);
    }
}

/// A letter tells its six bits, and is no equals sign.
proof fn lemma_base64_letter(v: int, w: int)
    requires
        0 <= v < 64,
        0 <= w < 64,
    ensures
        base64_letter(v) != '=',
        base64_letter(v) == base64_letter(w) ==> v == w,
{
}

/// Three bytes are told by their four groups of six bits.
proof fn lemma_group(a: Seq<u8>, b: Seq<u8>, m: int)
    requires
        0 <= m,
        six_bits(a, 4 * m) == six_bits(b, 4 * m),
        six_bits(a, 4 * m + 1) == six_bits(b, 4 * m + 1),
        six_bits(a, 4 * m + 2) == six_bits(b, 4 * m + 2),
        six_bits(a, 4 * m + 3) == six_bits(b, 4 * m + 3),
    ensures
        byte_or_zero(a, 3 * m) == byte_or_zero(b, 3 * m),
        byte_or_zero(a, 3 * m + 1) == byte_or_zero(b, 3 * m + 1),
        byte_or_zero(a, 3 * m + 2) == byte_or_zero(b, 3 * m + 2),
{
    lemma_group_bits(a, m);
    lemma_group_bits(b, m);
    let g = group_of(a, m);
    let h = group_of(b, m);
    lemma_bits_tell(g, h);
}

/// Three bytes of the data as one number.
spec fn group_of(data: Seq<u8>, m: int) -> int {
    byte_or_zero(data, 3 * m) * 0x10000 + byte_or_zero(data, 3 * m + 1) * 0x100 + byte_or_zero(
        data,
        3 * m + 2,
    )
}

proof fn lemma_group_bits(data: Seq<u8>, m: int)
    requires
        0 <= m,
    ensures
        six_bits(data, 4 * m) == group_of(data, m) / 0x40000,
        six_bits(data, 4 * m + 1) == group_of(data, m) / 0x1000 % 64,
        six_bits(data, 4 * m + 2) == group_of(data, m) / 0x40 % 64,
        six_bits(data, 4 * m + 3) == group_of(data, m) % 64,
{
    assert(4 * m / 4 * 3 == 3 * m && 4 * m % 4 == 0);
    assert((4 * m + 1) / 4 * 3 == 3 * m && (4 * m + 1) % 4 == 1);
    assert((4 * m + 2) / 4 * 3 == 3 * m && (4 * m + 2) % 4 == 2);
    assert((4 * m + 3) / 4 * 3 == 3 * m && (4 * m + 3) % 4 == 3);
}

proof fn lemma_bits_tell(g: int, h: int)
    requires
        0 <= g,
        0 <= h,
        g / 0x40000 == h / 0x40000,
        g / 0x1000 % 64 == h / 0x1000 % 64,
        g / 0x40 % 64 == h / 0x40 % 64,
        g % 64 == h % 64,
    ensures
        g == h,
{
    assert(g / 0x1000 / 64 == g / 0x40000);
    assert(h / 0x1000 / 64 == h / 0x40000);
    assert(g / 0x1000 == h / 0x1000);
    assert(g / 0x40 / 64 == g / 0x1000);
    assert(h / 0x40 / 64 == h / 0x1000);
    assert(g / 0x40 == h / 0x40);
}

/// Behind the end of the data all bits are zero.
proof fn lemma_six_bits_behind(data: Seq<u8>, i: int)
    requires
        8 * data.len() <= 6 * i,
        0 <= i,
    ensures
        six_bits(data, i) == 0,
{
}

/// The letter at a place of data in Base64, or the padding there.
proof fn lemma_letter_at(data: Seq<u8>, i: int)
    requires
        0 <= i < base64_text(data).len(),
    ensures
        0 <= six_bits(data, i) < 64,
        base64_text(data)[i] == if 6 * i < 8 * data.len() {
            base64_letter(six_bits(data, i))
        } else {
            '='
        },
{
    lemma_six_bits(data, i);
}

/// A letter tells its six bits, and padding is no letter.
proof fn lemma_letter_tells(u: int, v: int, of_u: bool, of_v: bool)
    requires
        0 <= u < 64,
        0 <= v < 64,
        (if of_u {
            base64_letter(u)
        } else {
            '='
        }) == (if of_v {
            base64_letter(v)
        } else {
            '='
        }),
    ensures
        of_u == of_v,
        of_u ==> u == v,
{
    lemma_base64_letter(u, v);
    lemma_base64_letter(v, u);
}

/// A letter of data in Base64 that is the same for other data stands for the same bits, and
/// is padding for both or for neither.
proof fn lemma_same_letter(a: Seq<u8>, b: Seq<u8>, i: int)
    requires
        base64_text(a) == base64_text(b),
        0 <= i < base64_text(a).len(),
    ensures
        six_bits(a, i) == six_bits(b, i),
        6 * i < 8 * a.len() <==> 6 * i < 8 * b.len(),
{
    lemma_letter_at(a, i);
    lemma_letter_at(b, i);
    lemma_letter_tells(six_bits(a, i), six_bits(b, i), 6 * i < 8 * a.len(), 6 * i < 8 * b.len());
    if 6 * i >= 8 * a.len() {
        lemma_six_bits_behind(a, i);
        lemma_six_bits_behind(b, i);
    }
}

/// Data that is the same in Base64 is not shorter.
proof fn lemma_not_shorter(a: Seq<u8>, b: Seq<u8>)
    requires
        base64_text(a) == base64_text(b),
    ensures
        a.len() >= b.len(),
{
    if a.len() < b.len() {
        let i = (8 * a.len() as int + 5) / 6;
        assert(0 <= i < base64_text(a).len());
        lemma_same_letter(a, b, i);
    }
}

/// Data that is the same in Base64 is the same.
pub proof fn law_base64_keeps_data_apart(a: Seq<u8>, b: Seq<u8>)
    requires
        base64_text(a) == base64_text(b),
    ensures
        a == b,
{
    lemma_not_shorter(a, b);
    lemma_not_shorter(b, a);
    assert forall|k: int| 0 <= k < a.len() implies a[k] == b[k] by {
        let m = k / 3;
        assert(4 * m + 4 <= base64_text(a).len());
        lemma_same_letter(a, b, 4 * m);
        lemma_same_letter(a, b, 4 * m + 1);
        lemma_same_letter(a, b, 4 * m + 2);
        lemma_same_letter(a, b, 4 * m + 3);
        lemma_group(a, b, m);
    }
}

/// Two texts that are put into the clipboard alike are the same text.
pub proof fn law_clipboard_keeps_texts_apart(a: Seq<char>, b: Seq<char>)
    requires
        clipboard_sequence(a) == clipboard_sequence(b),
    ensures
        a == b,
{
    let start = "\x1b]52;c;"@;
    let end = "\x07"@;
    let x = base64_text(vstd::utf8::encode_utf8(a));
    let y = base64_text(vstd::utf8::encode_utf8(b));
    let n = start.len() as int;
    assert(clipboard_sequence(a).len() == n + x.len() + end.len());
    assert(clipboard_sequence(b).len() == n + y.len() + end.len());
    assert(x == clipboard_sequence(a).subrange(n, n + x.len()));
    assert(y == clipboard_sequence(b).subrange(n, n + y.len()));
    law_base64_keeps_data_apart(vstd::utf8::encode_utf8(a), vstd::utf8::encode_utf8(b));
    vstd::utf8::encode_utf8_decode_utf8(a);
    vstd::utf8::encode_utf8_decode_utf8(b);
}

/// The letter of six bits is the one at their place of the standard alphabet.
pub proof fn law_base64_alphabet(v: int)
    requires
        0 <= v < 64,
    ensures
        base64_letter(v)
            == "ABCDEFGHIJKLMNOPQRSTUVWXYZabcdefghijklmnopqrstuvwxyz0123456789+/"@[v],
{
    reveal_strlit("ABCDEFGHIJKLMNOPQRSTUVWXYZabcdefghijklmnopqrstuvwxyz0123456789+/");
}

/// Each three bytes of data stand as four letters with the same bits in Base64; bytes that are
/// missing at the end count as zero, and a letter with bits of missing bytes only is an equals
/// sign.
pub proof fn law_base64_keeps_bits(data: Seq<u8>, m: int, i: int)
    requires
        0 <= m,
        0 <= i < base64_text(data).len(),
    ensures
        0 <= six_bits(data, i) < 64,
        six_bits(data, 4 * m) * 0x40000 + six_bits(data, 4 * m + 1) * 0x1000 + six_bits(
            data,
            4 * m + 2,
        ) * 0x40 + six_bits(data, 4 * m + 3) == byte_or_zero(data, 3 * m) * 0x10000 + byte_or_zero(
            data,
            3 * m + 1,
        ) * 0x100 + byte_or_zero(data, 3 * m + 2),
        byte_or_zero(data, m) == if m < data.len() {
            data[m] as int
        } else {
            0
        },
        base64_text(data)[i] == if 6 * i < 8 * data.len() {
            base64_letter(six_bits(data, i))
        } else {
            '='
        },
        base64_text(data).len() % 4 == 0,
        6 * base64_text(data).len() - 24 < 8 * data.len() <= 6 * base64_text(data).len(),
{
    lemma_letter_at(data, i);
    lemma_group_bits(data, m);
    let g = group_of(data, m);
    assert(g / 0x1000 / 64 == g / 0x40000);
    assert(g / 0x40 / 64 == g / 0x1000);
}

/// The sequence for the clipboard is the data of the text in Base64 between a start and an end
/// that are the same for every text.
pub proof fn law_clipboard_sequence(content: Seq<char>)
    ensures
        clipboard_sequence(content) == seq!['\x1b', ']', '5', '2', ';', 'c', ';'] + base64_text(
            vstd::utf8::encode_utf8(content),
        ) + seq!['\x07'],
{
    reveal_strlit("\x1b]52;c;");
    reveal_strlit("\x07");
    assert("\x1b]52;c;"@ =~= seq!['\x1b', ']', '5', '2', ';', 'c', ';']);
    assert("\x07"@ =~= seq!['\x07']);
}

/// A text is quoted part by part between two single quotes: a single quote becomes one that
/// closes, one in double quotes and one that opens, and every other character stays.
pub proof fn law_quoted(a: Seq<char>, b: Seq<char>, c: char)
    ensures
        escaped(a + b) == escaped(a) + escaped(b),
        c != '\'' ==> escaped(seq![c]) == seq![c],
        escaped(seq!['\'']) == seq!['\'', '"', '\'', '"', '\''],
        escaped(Seq::empty()).len() == 0,
        quoted(a) == seq!['\''] + escaped(a) + seq!['\''],
    decreases a.len(),
{
    let none = Seq::<char>::empty();
    assert(escaped(none) == none);
    assert(seq![c].subrange(1, 1) == none);
    assert(seq!['\''].subrange(1, 1) == none);
    assert(escaped_char(c) + none == escaped_char(c));
    assert(escaped_char('\'') + none == escaped_char('\''));
    if a.len() == 0 {
        assert(a + b == b);
        assert(escaped(a) + escaped(b) == escaped(b));
    } else {
        let rest = a.subrange(1, a.len() as int);
        law_quoted(rest, b, c);
        assert((a + b).subrange(1, (a + b).len() as int) == rest + b);
        assert((a + b)[0] == a[0]);
        assert(escaped_char(a[0]) + (escaped(rest) + escaped(b)) == escaped_char(a[0]) + escaped(
            rest,
        ) + escaped(b));
    }
}

} // verus!
