//! Raster profiles: how the coverage of a pixel becomes a character.

use vstd::prelude::*;
use crate::text;

verus! {

/// A named ramp of characters.
#[derive(Debug, Clone, Copy, PartialEq, Eq, Structural)]
pub enum RasterProfile {
    Classic,
    Dense,
    Binary,
    Inverted,
}

/// The profiles in the order in which they are offered.
pub open spec fn all_profiles() -> Seq<RasterProfile> {
    seq![
        RasterProfile::Classic,
        RasterProfile::Dense,
        RasterProfile::Binary,
        RasterProfile::Inverted,
    ]
}

/// The name of a profile.
pub open spec fn profile_id(p: RasterProfile) -> Seq<char> {
    match p {
        RasterProfile::Classic => "classic"@,
        RasterProfile::Dense => "dense"@,
        RasterProfile::Binary => "binary"@,
        RasterProfile::Inverted => "inverted"@,
    }
}

/// The characters of a profile, from no coverage to full coverage.
pub open spec fn profile_ramp(p: RasterProfile) -> Seq<char> {
    match p {
        RasterProfile::Classic => " .:-=+*#%@"@,
        RasterProfile::Dense =>
            " .'`^\",:;Il!i~+_-?][}{1)(|\\/*tfjrxnuvczXYUJCLQ0OZmwqpdbkhao*#MW&8%B@$"@,
        RasterProfile::Binary => " #"@,
        RasterProfile::Inverted => "@%#*+=-:. "@,
    }
}

/// The place of a profile in `all_profiles`.
pub open spec fn profile_index(p: RasterProfile) -> int {
    match p {
        RasterProfile::Classic => 0,
        RasterProfile::Dense => 1,
        RasterProfile::Binary => 2,
        RasterProfile::Inverted => 3,
    }
}

/// The profile after `p`; the first after the last.
pub open spec fn next_profile(p: RasterProfile) -> RasterProfile {
    all_profiles()[(profile_index(p) + 1) % 4]
}

/// The profile before `p`; the last before the first.
pub open spec fn prev_profile(p: RasterProfile) -> RasterProfile {
    all_profiles()[(profile_index(p) + 3) % 4]
}

/// The names of all profiles, in order.
pub open spec fn profile_ids() -> Seq<Seq<char>> {
    Seq::new(4, |i: int| profile_id(all_profiles()[i]))
}

impl RasterProfile {
    /// All profiles, in the order in which they are offered.
    pub fn all() -> (r: &'static [RasterProfile])
        ensures
            r@ == all_profiles(),
    {
        &[
            RasterProfile::Classic,
            RasterProfile::Dense,
            RasterProfile::Binary,
            RasterProfile::Inverted,
        ]
    }

    /// The name of the profile.
    pub fn id(self) -> (r: &'static str)
        ensures
            r@ == profile_id(self),
    {
        match self {
            RasterProfile::Classic => "classic",
            RasterProfile::Dense => "dense",
            RasterProfile::Binary => "binary",
            RasterProfile::Inverted => "inverted",
        }
    }

    /// The characters of the profile, from no coverage to full coverage.
    pub fn ramp(self) -> (r: &'static str)
        ensures
            r@ == profile_ramp(self),
    {
        match self {
            RasterProfile::Classic => " .:-=+*#%@",
            RasterProfile::Dense =>
                " .'`^\",:;Il!i~+_-?][}{1)(|\\/*tfjrxnuvczXYUJCLQ0OZmwqpdbkhao*#MW&8%B@$",
            RasterProfile::Binary => " #",
            RasterProfile::Inverted => "@%#*+=-:. ",
        }
    }

    /// The profile of a given name.
    pub fn from_id(value: &str) -> (r: Option<Self>)
        ensures
            match r {
                Some(p) => value@ == profile_id(p),
                None => forall|p: RasterProfile| value@ != profile_id(p),
            },
    {
        let profiles = Self::all();
        let mut i: usize = 0;
        while i < profiles.len()
            invariant
                profiles@ == all_profiles(),
                forall|k: int| 0 <= k < i ==> value@ != profile_id(#[trigger] all_profiles()[k]),
            decreases profiles.len() - i,
        {
            let p = profiles[i];
            if text::same_text(p.id(), value) {
                return Some(p);
            }
            i = i + 1;
        }
        assert forall|p: RasterProfile| value@ != profile_id(p) by {
            assert(all_profiles()[profile_index(p)] == p);
        }
        None
    }

    /// The profile after this one; the first after the last.
    pub fn next(self) -> (r: Self)
        ensures
            r == next_profile(self),
    {
        let profiles = Self::all();
        let index: usize = self.position();
        profiles[(index + 1) % profiles.len()]
    }

    /// The profile before this one; the last before the first.
    pub fn prev(self) -> (r: Self)
        ensures
            r == prev_profile(self),
    {
        let profiles = Self::all();
        let index: usize = self.position();
        profiles[(index + profiles.len() - 1) % profiles.len()]
    }

    /// The place of the profile among all profiles.
    fn position(self) -> (r: usize)
        ensures
            r == profile_index(self),
    {
        let profiles = Self::all();
        let mut i: usize = 0;
        while i < profiles.len()
            invariant
                profiles@ == all_profiles(),
                i <= profile_index(self),
            decreases profiles.len() - i,
        {
            if profiles[i] == self {
                return i;
            }
            i = i + 1;
        }
        0
    }
}

/// No profile has the name that was asked for.
#[derive(Debug)]
pub struct UnknownProfile {
    /// The name as it was given.
    pub value: String,
}

/// What is said of a name that no profile has.
pub open spec fn unknown_profile_message(value: Seq<char>) -> Seq<char> {
    "unknown profile '"@ + value + "', expected one of: "@ + text::join(profile_ids(), ", "@)
}

impl UnknownProfile {
    /// The error in words.
    pub fn message(&self) -> (r: String)
        ensures
            r@ == unknown_profile_message(self.value@),
    {
        let profiles = RasterProfile::all();
        let mut ids: Vec<String> = Vec::new();
        let mut i: usize = 0;
        while i < profiles.len()
            invariant
                i <= profiles.len(),
                profiles@ == all_profiles(),
                text::texts(ids@) == profile_ids().subrange(0, i as int),
            decreases profiles.len() - i,
        {
            let ghost before = text::texts(ids@);
            ids.push(profiles[i].id().to_owned());
            assert(text::texts(ids@) == before.push(profile_ids()[i as int]));
            i = i + 1;
        }
        assert(text::texts(ids@) == profile_ids());
        let mut out = String::new();
        out.append("unknown profile '");
        out.append(self.value.as_str());
        out.append("', expected one of: ");
        out.append(text::join_texts(&ids, ", ").as_str());
        out
    }
}

/// A text that was given for a profile means it.
pub open spec fn means(value: Seq<char>, p: RasterProfile) -> bool {
    text::lowered(text::trim(value)) == profile_id(p)
}

/// The profile of a name that may have white space around it and any case.
pub fn parse_profile(value: &str) -> (r: Result<RasterProfile, UnknownProfile>)
    ensures
        r is Ok ==> means(value@, r->Ok_0),
        r is Err ==> forall|p: RasterProfile| !means(value@, p),
        match r {
            Ok(p) => text::lowered(text::trim(value@)) == profile_id(p),
            Err(e) => e.value@ == value@ && forall|p: RasterProfile|
                text::lowered(text::trim(value@)) != profile_id(p),
        },
{
    let normalized = text::lower_text(text::trim_text(value).as_str());
    match RasterProfile::from_id(normalized.as_str()) {
        Some(p) => Ok(p),
        None => Err(UnknownProfile { value: value.to_owned() }),
    }
}

/// Two profiles never share a name, so a name gives at most one profile.
pub proof fn law_names_are_distinct(p: RasterProfile, q: RasterProfile)
    requires
        profile_id(p) == profile_id(q),
    ensures
        p == q,
{
    reveal_strlit("classic");
    reveal_strlit("dense");
    reveal_strlit("binary");
    reveal_strlit("inverted");
    assert("classic"@[0] == 'c' && "dense"@[0] == 'd' && "binary"@[0] == 'b' && "inverted"@[0]
        == 'i');
    assert(profile_id(p)[0] == profile_id(q)[0]);
}

/// The name of a profile is what `parse_profile` looks for when it is given that name.
pub proof fn law_name_parses_as_itself(p: RasterProfile)
    ensures
        text::lowered(text::trim(profile_id(p))) == profile_id(p),
{
    reveal_strlit("classic");
    reveal_strlit("dense");
    reveal_strlit("binary");
    reveal_strlit("inverted");
    let s = profile_id(p);
    assert(!text::white_space(s[0]) && !text::white_space(s.last()));
    assert(text::trim(s) == s);
    assert forall|i: int| 0 <= i < s.len() implies text::lowered(s)[i] == s[i] by {}
    assert(text::lowered(s) == s);
}

/// `next` and `prev` undo each other.
pub proof fn law_next_and_prev_are_inverse(p: RasterProfile)
    ensures
        prev_profile(next_profile(p)) == p,
        next_profile(prev_profile(p)) == p,
{
}

/// Going on from a profile meets every profile once before it comes back.
pub proof fn law_next_visits_every_profile(p: RasterProfile, q: RasterProfile)
    ensures
        q == p || q == next_profile(p) || q == next_profile(next_profile(p)) || q == next_profile(
            next_profile(next_profile(p)),
        ),
        next_profile(next_profile(next_profile(next_profile(p)))) == p,
{
}

/// Every ramp has a first and a last character, and no more than seventy in all.
pub proof fn law_ramp_size(p: RasterProfile)
    ensures
        2 <= profile_ramp(p).len() <= 70,
{
    reveal_strlit(" .:-=+*#%@");
    reveal_strlit(" .'`^\",:;Il!i~+_-?][}{1)(|\\/*tfjrxnuvczXYUJCLQ0OZmwqpdbkhao*#MW&8%B@$");
    reveal_strlit(" #");
    reveal_strlit("@%#*+=-:. ");
}

/// Every character of a ramp is a printable ASCII character.
pub proof fn law_ramp_is_printable(p: RasterProfile, i: int)
    requires
        0 <= i < profile_ramp(p).len(),
    ensures
        ' ' <= profile_ramp(p)[i] <= '~',
{
    reveal_strlit(" .:-=+*#%@");
    reveal_strlit(" .'`^\",:;Il!i~+_-?][}{1)(|\\/*tfjrxnuvczXYUJCLQ0OZmwqpdbkhao*#MW&8%B@$");
    reveal_strlit(" #");
    reveal_strlit("@%#*+=-:. ");
}

/// The names of profiles consist of small letters.
pub proof fn lemma_names_are_letters(p: RasterProfile)
    ensures
        profile_id(p).len() > 0,
        forall|i: int| 0 <= i < profile_id(p).len() ==> 'a' <= #[trigger] profile_id(p)[i] <= 'z',
{
    reveal_strlit("classic");
    reveal_strlit("dense");
    reveal_strlit("binary");
    reveal_strlit("inverted");
}

/// The profiles follow each other as they are offered: the classic one, the dense one, that of
/// two characters and the inverted one, and then the classic one again.
pub proof fn law_order_of_profiles()
    ensures
        next_profile(RasterProfile::Classic) == RasterProfile::Dense,
        next_profile(RasterProfile::Dense) == RasterProfile::Binary,
        next_profile(RasterProfile::Binary) == RasterProfile::Inverted,
        next_profile(RasterProfile::Inverted) == RasterProfile::Classic,
        all_profiles().len() == 4,
        forall|i: int|
            0 <= i < 3 ==> #[trigger] all_profiles()[i + 1] == next_profile(all_profiles()[i]),
        all_profiles()[0] == RasterProfile::Classic,
{
}

/// The ramp of the inverted profile is that of the classic one backwards. Every other ramp
/// starts with the space, and so draws nothing where there is no coverage.
pub proof fn law_ramps()
    ensures
        profile_ramp(RasterProfile::Classic).len() == 10,
        profile_ramp(RasterProfile::Inverted).len() == 10,
        forall|i: int|
            0 <= i < 10 ==> #[trigger] profile_ramp(RasterProfile::Inverted)[i] == profile_ramp(
                RasterProfile::Classic,
            )[9 - i],
        profile_ramp(RasterProfile::Dense).len() == 69,
        profile_ramp(RasterProfile::Binary) == seq![' ', '#'],
        profile_ramp(RasterProfile::Classic)[0] == ' ',
        profile_ramp(RasterProfile::Dense)[0] == ' ',
        profile_ramp(RasterProfile::Classic).last() == '@',
        profile_ramp(RasterProfile::Dense).last() == '$',
        forall|i: int, j: int|
            0 <= i < j < 10 ==> #[trigger] profile_ramp(RasterProfile::Classic)[i]
                != #[trigger] profile_ramp(RasterProfile::Classic)[j],
{
    reveal_strlit(" .:-=+*#%@");
    reveal_strlit(" .'`^\",:;Il!i~+_-?][}{1)(|\\/*tfjrxnuvczXYUJCLQ0OZmwqpdbkhao*#MW&8%B@$");
    reveal_strlit(" #");
    reveal_strlit("@%#*+=-:. ");
    assert(profile_ramp(RasterProfile::Binary) =~= seq![' ', '#']);
}

/// The characters of the dense and of the classic ramp, from no coverage to full coverage.
pub proof fn law_characters_of_ramps()
    ensures
        profile_ramp(RasterProfile::Dense) == seq![
            ' ',
            '.',
            '\'',
            '`',
            '^',
            '"',
            ',',
            ':',
            ';',
            'I',
            'l',
            '!',
            'i',
            '~',
            '+',
            '_',
            '-',
            '?',
            ']',
            '[',
            '}',
            '{',
            '1',
            ')',
            '(',
            '|',
            '\\',
            '/',
            '*',
            't',
            'f',
            'j',
            'r',
            'x',
            'n',
            'u',
            'v',
            'c',
            'z',
            'X',
            'Y',
            'U',
            'J',
            'C',
            'L',
            'Q',
            '0',
            'O',
            'Z',
            'm',
            'w',
            'q',
            'p',
            'd',
            'b',
            'k',
            'h',
            'a',
            'o',
            '*',
            '#',
            'M',
            'W',
            '&',
            '8',
            '%',
            'B',
            '@',
            '$',
        ],
        profile_ramp(RasterProfile::Classic) == seq![
            ' ',
            '.',
            ':',
            '-',
            '=',
            '+',
            '*',
            '#',
            '%',
            '@',
        ],
{
    reveal_strlit(" .:-=+*#%@");
    reveal_strlit(" .'`^\",:;Il!i~+_-?][}{1)(|\\/*tfjrxnuvczXYUJCLQ0OZmwqpdbkhao*#MW&8%B@$");
    let ramp = profile_ramp(RasterProfile::Dense);
    assert(ramp =~= seq![
        ' ',
        '.',
        '\'',
        '`',
        '^',
        '"',
        ',',
        ':',
        ';',
        'I',
        'l',
        '!',
        'i',
        '~',
        '+',
        '_',
        '-',
        '?',
        ']',
        '[',
        '}',
        '{',
        '1',
        ')',
        '(',
        '|',
        '\\',
        '/',
        '*',
        't',
        'f',
        'j',
        'r',
        'x',
        'n',
        'u',
        'v',
        'c',
        'z',
        'X',
        'Y',
        'U',
        'J',
        'C',
        'L',
        'Q',
        '0',
        'O',
        'Z',
        'm',
        'w',
        'q',
        'p',
        'd',
        'b',
        'k',
        'h',
        'a',
        'o',
        '*',
        '#',
        'M',
        'W',
        '&',
        '8',
        '%',
        'B',
        '@',
        '$',
    ]);
}

/// What is said of a name that no profile has repeats that name and lists all names.
pub proof fn law_unknown_profile_message(value: Seq<char>)
    ensures
        unknown_profile_message(value) == "unknown profile '"@ + value + "', expected one of: "@
            + "classic, dense, binary, inverted"@,
{
    reveal_strlit("classic");
    reveal_strlit("dense");
    reveal_strlit("binary");
    reveal_strlit("inverted");
    reveal_strlit(", ");
    reveal_strlit("classic, dense, binary, inverted");
    let ids = profile_ids();
    let three = ids.drop_last();
    let two = three.drop_last();
    let one = two.drop_last();
    assert(text::join(one, ", "@) == "classic"@);
    assert(text::join(two, ", "@) == "classic"@ + ", "@ + "dense"@);
    assert(text::join(three, ", "@) == "classic"@ + ", "@ + "dense"@ + ", "@ + "binary"@);
    assert(text::join(ids, ", "@) =~= "classic, dense, binary, inverted"@);
}

/// A text means a profile where it is the name of that profile in any case of its letters,
/// with any white space around it, and only there.
pub proof fn law_means(before: Seq<char>, name: Seq<char>, after: Seq<char>, p: RasterProfile)
    requires
        forall|i: int| 0 <= i < before.len() ==> text::white_space(#[trigger] before[i]),
        forall|i: int| 0 <= i < after.len() ==> text::white_space(#[trigger] after[i]),
        name.len() > 0 ==> !text::white_space(name[0]) && !text::white_space(name.last()),
    ensures
        means(before + name + after, p) <==> {
            &&& name.len() == profile_id(p).len()
            &&& forall|i: int|
                0 <= i < name.len() ==> text::lower(#[trigger] name[i]) == profile_id(p)[i]
        },
{
    text::law_trim_takes_around(before, name, after);
    let small = text::lowered(name);
    if means(before + name + after, p) {
        assert forall|i: int| 0 <= i < name.len() implies text::lower(#[trigger] name[i])
            == profile_id(p)[i] by {
            assert(small[i] == text::lower(name[i]));
        }
    } else if name.len() == profile_id(p).len() && forall|i: int|
        0 <= i < name.len() ==> text::lower(#[trigger] name[i]) == profile_id(p)[i] {
        assert(small =~= profile_id(p));
    }
}

} // verus!
