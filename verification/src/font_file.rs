//! Font files, as far as it depends on them whether they can be handed to a parser that adds
//! up what it reads in them without a test.
//!
//! The functions follow the tables of a file from one place to the next. What lies behind the
//! end of a table counts as zero.

use vstd::prelude::*;
use vstd::slice::slice_subrange;

verus! {

/// The number of two bytes at a place, the high byte first; zero where they are not there.
pub open spec fn word(d: Seq<u8>, p: int) -> int {
    if 0 <= p && p + 2 <= d.len() {
        d[p] * 0x100 + d[p + 1]
    } else {
        0
    }
}

/// The number of four bytes at a place, the high byte first; zero where they are not there.
pub open spec fn long(d: Seq<u8>, p: int) -> int {
    if 0 <= p && p + 4 <= d.len() {
        word(d, p) * 0x10000 + word(d, p + 2)
    } else {
        0
    }
}

/// The number of two bytes at a place.
fn word_at(d: &[u8], p: u64) -> (r: u64)
    requires
        p <= 0xffff_ffff_ffff,
    ensures
        r == word(d@, p as int),
        r <= 0xffff,
{
    if p + 2 <= d.len() as u64 {
        d[p as usize] as u64 * 0x100 + d[p as usize + 1] as u64
    } else {
        0
    }
}

/// The number of four bytes at a place.
fn long_at(d: &[u8], p: u64) -> (r: u64)
    requires
        p <= 0xfff_ffff_ffff,
    ensures
        r == long(d@, p as int),
        r <= 0xffff_ffff,
{
    if p + 4 <= d.len() as u64 {
        word_at(d, p) * 0x10000 + word_at(d, p + 2)
    } else {
        0
    }
}

/// The numbers with which a face starts: those of TrueType and of OpenType.
pub open spec fn starts_face(n: int) -> bool {
    n == 0x00010000 || n == 0x74727565 || n == 0x4f54544f
}

/// The file starts with `ttcf`: it holds a collection of faces.
pub open spec fn is_collection(d: Seq<u8>) -> bool {
    long(d, 0) == 0x74746366
}

/// The list of faces of a collection ends at a place that four bytes can name.
pub open spec fn faces_fit(d: Seq<u8>) -> bool {
    is_collection(d) ==> 12 + 4 * long(d, 8) <= u32::MAX
}

/// The place behind the number with which the first face of the file starts.
pub open spec fn face_start(d: Seq<u8>) -> Option<int> {
    if is_collection(d) {
        let list_end = 12 + 4 * long(d, 8);
        let at = long(d, 12);
        if list_end == 12 || list_end > d.len() || at < list_end || !starts_face(long(d, at)) {
            None
        } else {
            Some(at + 4)
        }
    } else if starts_face(long(d, 0)) {
        Some(4)
    } else {
        None
    }
}

/// The directory of tables at a place is complete.
pub open spec fn has_directory(d: Seq<u8>, at: int) -> bool {
    at + 8 + 16 * word(d, at) <= d.len()
}

/// The table with a tag that the last of the first `n` records of the directory gives it;
/// there is none where its end is behind the end of the file.
pub open spec fn table_among(d: Seq<u8>, at: int, tag: int, n: int) -> Option<Seq<u8>>
    decreases n,
{
    if n <= 0 {
        None
    } else {
        let record = at + 8 + 16 * (n - 1);
        let from = long(d, record + 8);
        let to = from + long(d, record + 12);
        if long(d, record) != tag {
            table_among(d, at, tag, n - 1)
        } else if to > d.len() {
            None
        } else {
            Some(d.subrange(from, to))
        }
    }
}

/// The table with a tag.
pub open spec fn table(d: Seq<u8>, at: int, tag: int) -> Option<Seq<u8>> {
    table_among(d, at, tag, word(d, at))
}

/// A `head` table: the size of the em and the format of the glyph places are in range.
pub open spec fn head_is_whole(t: Seq<u8>) -> bool {
    t.len() >= 54 && 16 <= word(t, 18) <= 16384 && word(t, 50) <= 1
}

/// An `hhea` table.
pub open spec fn hhea_is_whole(t: Seq<u8>) -> bool {
    t.len() >= 36
}

/// A `maxp` table: of a known version, with a glyph.
pub open spec fn maxp_is_whole(t: Seq<u8>) -> bool {
    &&& t.len() >= 6
    &&& long(t, 0) == 0x00005000 || long(t, 0) == 0x00010000
    &&& word(t, 4) > 0
}

/// The face has the three tables that every face has.
pub open spec fn is_face(d: Seq<u8>, at: int) -> bool {
    &&& table(d, at, 0x68656164) matches Some(t) && head_is_whole(t)
    &&& table(d, at, 0x68686561) matches Some(t) && hhea_is_whole(t)
    &&& table(d, at, 0x6d617870) matches Some(t) && maxp_is_whole(t)
}

/// The place behind the number with which the first face of the file starts.
fn find_face(d: &[u8]) -> (r: Option<u64>)
    requires
        faces_fit(d@),
    ensures
        match r {
            Some(at) => face_start(d@) == Some(at as int) && at <= 0x1_0000_0003,
            None => face_start(d@) is None,
        },
{
    let start: u64 = long_at(d, 0);
    if start != 0x74746366 {
        return if start == 0x00010000 || start == 0x74727565 || start == 0x4f54544f {
            Some(4)
        } else {
            None
        };
    }
    let list_end: u64 = 12 + 4 * long_at(d, 8);
    let at: u64 = long_at(d, 12);
    let face: u64 = long_at(d, at);
    if list_end == 12 || list_end > d.len() as u64 || at < list_end || !(face == 0x00010000 || face
        == 0x74727565 || face == 0x4f54544f) {
        None
    } else {
        Some(at + 4)
    }
}

/// The table with a tag.
fn find_table(d: &[u8], at: u64, tag: u64) -> (r: Option<&[u8]>)
    requires
        at <= 0x1_0000_0003,
    ensures
        match r {
            Some(t) => table(d@, at as int, tag as int) == Some(t@),
            None => table(d@, at as int, tag as int) is None,
        },
{
    let mut n: u64 = word_at(d, at);
    while n > 0
        invariant
            at <= 0x1_0000_0003,
            n <= 0xffff,
            table(d@, at as int, tag as int) == table_among(
                d@,
                at as int,
                tag as int,
                n as int,
            ),
        decreases n,
    {
        let record: u64 = at + 8 + 16 * (n - 1);
        if long_at(d, record) == tag {
            let from: u64 = long_at(d, record + 8);
            let to: u64 = from + long_at(d, record + 12);
            return if to <= d.len() as u64 {
                Some(slice_subrange(d, from as usize, to as usize))
            } else {
                None
            };
        }
        n = n - 1;
    }
    None
}

/// Whether the face has the three tables that every face has.
fn has_face(d: &[u8], at: u64) -> (r: bool)
    requires
        at <= 0x1_0000_0003,
    ensures
        r == is_face(d@, at as int),
{
    let head = match find_table(d, at, 0x68656164) {
        Some(t) => t.len() >= 54 && 16 <= word_at(t, 18) && word_at(t, 18) <= 16384 && word_at(
            t,
            50,
        ) <= 1,
        None => false,
    };
    let hhea = match find_table(d, at, 0x68686561) {
        Some(t) => t.len() >= 36,
        None => false,
    };
    let maxp = match find_table(d, at, 0x6d617870) {
        Some(t) => t.len() >= 6 && (long_at(t, 0) == 0x00005000 || long_at(t, 0) == 0x00010000)
            && word_at(t, 4) > 0,
        None => false,
    };
    head && hhea && maxp
}

/// Where the records of a `name` table start.
pub open spec fn name_records(t: Seq<u8>) -> Option<int> {
    if t.len() < 6 {
        None
    } else if word(t, 0) == 0 {
        Some(6)
    } else if word(t, 0) == 1 && t.len() >= 8 && 4 * word(t, 6) <= u16::MAX {
        Some(8 + 4 * word(t, 6))
    } else {
        None
    }
}

/// The encoding of a name is Unicode: that of the platform Unicode, and the first two of
/// Windows.
pub open spec fn is_unicode(platform: int, encoding: int) -> bool {
    platform == 0 || (platform == 3 && encoding <= 1)
}

/// The first full name in Unicode from the record `i` on. The names end at a record of an
/// unknown platform, or whose name does not lie in the table.
pub open spec fn full_name_from(
    t: Seq<u8>,
    records: int,
    storage: int,
    i: int,
) -> Option<Seq<u8>>
    decreases word(t, 2) - i,
{
    let record = records + 12 * i;
    let from = storage + word(t, record + 10);
    let to = from + word(t, record + 8);
    if i >= word(t, 2) || word(t, record) > 4 || to > t.len() {
        None
    } else if word(t, record + 6) == 4 && is_unicode(word(t, record), word(t, record + 2)) {
        Some(t.subrange(from, to))
    } else {
        full_name_from(t, records, storage, i + 1)
    }
}

/// The bytes of the first full name in Unicode of a `name` table.
pub open spec fn full_name(t: Seq<u8>) -> Option<Seq<u8>> {
    match name_records(t) {
        Some(records) => {
            let end = records + 12 * word(t, 2);
            let storage = if end < word(t, 4) {
                word(t, 4)
            } else {
                end
            };
            if end > t.len() || storage > t.len() {
                None
            } else {
                full_name_from(t, records, storage, 0)
            }
        },
        None => None,
    }
}

/// A text in UTF-16 that is read to its end: it has no half of a unit, and each surrogate
/// that starts a pair is followed by a unit from which 0xDC00 can be taken; no other
/// surrogate starts one.
pub open spec fn utf16_is_read(n: Seq<u8>) -> bool
    decreases n.len(),
{
    if n.len() == 0 {
        true
    } else if n.len() == 1 {
        false
    } else if word(n, 0) < 0xd800 || word(n, 0) > 0xdfff {
        utf16_is_read(n.subrange(2, n.len() as int))
    } else {
        &&& word(n, 0) < 0xdc00
        &&& n.len() >= 4
        &&& word(n, 2) >= 0xdc00
        &&& utf16_is_read(n.subrange(4, n.len() as int))
    }
}

/// The first full name in Unicode, if there is one, can be read to its end.
pub open spec fn name_fits(t: Seq<u8>) -> bool {
    full_name(t) matches Some(n) ==> utf16_is_read(n)
}

/// The bytes of the first full name in Unicode of a `name` table.
fn find_full_name(t: &[u8]) -> (r: Option<&[u8]>)
    ensures
        match r {
            Some(n) => full_name(t@) == Some(n@),
            None => full_name(t@) is None,
        },
{
    if t.len() < 6 {
        return None;
    }
    let version: u64 = word_at(t, 0);
    let records: u64 = if version == 0 {
        6
    } else if version == 1 && t.len() >= 8 && 4 * word_at(t, 6) <= 0xffff {
        8 + 4 * word_at(t, 6)
    } else {
        return None;
    };
    let count: u64 = word_at(t, 2);
    let end: u64 = records + 12 * count;
    let given: u64 = word_at(t, 4);
    let storage: u64 = if end < given {
        given
    } else {
        end
    };
    if end > t.len() as u64 || storage > t.len() as u64 {
        return None;
    }
    let mut i: u64 = 0;
    while i < count
        invariant
            i <= count == word(t@, 2),
            count <= 0xffff,
            records <= 0xffff_ffff,
            storage <= 0xffff_ffff,
            full_name(t@) == full_name_from(t@, records as int, storage as int, i as int),
        decreases count - i,
    {
        let record: u64 = records + 12 * i;
        let platform: u64 = word_at(t, record);
        let encoding: u64 = word_at(t, record + 2);
        let from: u64 = storage + word_at(t, record + 10);
        let to: u64 = from + word_at(t, record + 8);
        if platform > 4 || to > t.len() as u64 {
            return None;
        }
        if word_at(t, record + 6) == 4 && (platform == 0 || (platform == 3 && encoding <= 1)) {
            return Some(slice_subrange(t, from as usize, to as usize));
        }
        i = i + 1;
    }
    None
}

/// Whether a text in UTF-16 is read to its end.
fn is_read(n: &[u8]) -> (r: bool)
    requires
        n@.len() <= 0x7fff_ffff,
    ensures
        r == utf16_is_read(n@),
{
    let mut at: usize = 0;
    assert(n@.subrange(0, n@.len() as int) == n@);
    while at < n.len()
        invariant
            at <= n@.len() <= 0x7fff_ffff,
            utf16_is_read(n@) == utf16_is_read(n@.subrange(at as int, n@.len() as int)),
        decreases n@.len() - at,
    {
        let ghost rest = n@.subrange(at as int, n@.len() as int);
        if n.len() - at < 2 {
            return false;
        }
        let unit: u64 = word_at(n, at as u64);
        assert(unit == word(rest, 0));
        if unit < 0xd800 || unit > 0xdfff {
            assert(rest.subrange(2, rest.len() as int) == n@.subrange(at + 2, n@.len() as int));
            at = at + 2;
        } else {
            if unit >= 0xdc00 || n.len() - at < 4 {
                return false;
            }
            let second: u64 = word_at(n, at as u64 + 2);
            assert(second == word(rest, 2));
            if second < 0xdc00 {
                return false;
            }
            assert(rest.subrange(4, rest.len() as int) == n@.subrange(at + 4, n@.len() as int));
            at = at + 4;
        }
    }
    true
}

/// Whether the first full name in Unicode, if there is one, can be read to its end.
fn has_readable_name(t: &[u8]) -> (r: bool)
    requires
        t@.len() <= 0x7fff_ffff,
    ensures
        r == name_fits(t@),
{
    match find_full_name(t) {
        Some(n) => {
            proof {
                lemma_full_name_is_part(t@);
            }
            is_read(n)
        },
        None => true,
    }
}

proof fn lemma_full_name_is_part(t: Seq<u8>)
    ensures
        full_name(t) matches Some(n) ==> n.len() <= t.len(),
{
    if name_records(t) is Some {
        let records = name_records(t)->0;
        let end = records + 12 * word(t, 2);
        lemma_name_is_part(
            t,
            records,
            if end < word(t, 4) {
                word(t, 4)
            } else {
                end
            },
            0,
        );
    }
}

proof fn lemma_name_is_part(t: Seq<u8>, records: int, storage: int, i: int)
    requires
        0 <= storage,
    ensures
        full_name_from(t, records, storage, i) matches Some(n) ==> n.len() <= t.len(),
    decreases word(t, 2) - i,
{
    if i < word(t, 2) {
        lemma_name_is_part(t, records, storage, i + 1);
    }
}

/// The list of the subtable at a place of a `cmap` table ends at a place that four bytes can
/// name, counted from the start of the subtable. The formats whose length is counted in two
/// bytes have short lists.
pub open spec fn mapping_fits(t: Seq<u8>, o: int) -> bool {
    let format = word(t, o);
    &&& format == 10 ==> 20 + 2 * long(t, o + 16) <= u32::MAX
    &&& format == 12 || format == 13 ==> 16 + 12 * long(t, o + 12) <= u32::MAX
    &&& format == 14 ==> 10 + 11 * long(t, o + 6) <= u32::MAX
}

/// So does each list of a `cmap` table.
pub open spec fn cmap_fits(t: Seq<u8>) -> bool {
    forall|k: int| 0 <= k < word(t, 2) ==> mapping_fits(t, #[trigger] long(t, 8 + 8 * k))
}

/// Whether each list of a `cmap` table ends at a place that four bytes can name.
fn has_fitting_mappings(t: &[u8]) -> (r: bool)
    ensures
        r == cmap_fits(t@),
{
    let count: u64 = word_at(t, 2);
    let mut k: u64 = 0;
    while k < count
        invariant
            k <= count == word(t@, 2),
            count <= 0xffff,
            forall|j: int| 0 <= j < k ==> mapping_fits(t@, #[trigger] long(t@, 8 + 8 * j)),
        decreases count - k,
    {
        let o: u64 = long_at(t, 8 + 8 * k);
        let format: u64 = word_at(t, o);
        let fits = if format == 10 {
            20 + 2 * long_at(t, o + 16) <= 0xffff_ffff
        } else if format == 12 || format == 13 {
            16 + 12 * long_at(t, o + 12) <= 0xffff_ffff
        } else if format == 14 {
            10 + 11 * long_at(t, o + 6) <= 0xffff_ffff
        } else {
            true
        };
        if !fits {
            assert(!mapping_fits(t@, long(t@, 8 + 8 * k as int)));
            return false;
        }
        k = k + 1;
    }
    true
}

/// The list of strikes of an `sbix` table ends at a place that four bytes can name.
pub open spec fn sbix_fits(t: Seq<u8>) -> bool {
    word(t, 0) == 1 ==> 8 + 4 * long(t, 4) <= u32::MAX
}

/// The lists of paints, layers and clips of a `COLR` table end at places that four bytes can
/// name.
pub open spec fn colr_fits(t: Seq<u8>) -> bool {
    let paints = long(t, 14);
    let layers = long(t, 18);
    let clips = long(t, 22);
    word(t, 0) == 1 ==> {
        &&& paints <= t.len() ==> paints + 4 + 6 * long(t, paints) <= u32::MAX
        &&& layers <= t.len() ==> layers + 4 + 4 * long(t, layers) <= u32::MAX
        &&& clips <= t.len() ==> 5 + 7 * long(t, clips + 1) <= u32::MAX
    }
}

/// The depth below the base line of an `OS/2` table can be negated.
pub open spec fn os2_fits(t: Seq<u8>) -> bool {
    word(t, 76) != 0x8000
}

/// Whether the list of strikes of an `sbix` table ends at a place that four bytes can name.
fn has_fitting_strikes(t: &[u8]) -> (r: bool)
    ensures
        r == sbix_fits(t@),
{
    word_at(t, 0) != 1 || 8 + 4 * long_at(t, 4) <= 0xffff_ffff
}

/// Whether the lists of a `COLR` table end at places that four bytes can name.
fn has_fitting_colors(t: &[u8]) -> (r: bool)
    ensures
        r == colr_fits(t@),
{
    let paints: u64 = long_at(t, 14);
    let layers: u64 = long_at(t, 18);
    let clips: u64 = long_at(t, 22);
    let n: u64 = t.len() as u64;
    word_at(t, 0) != 1 || ((paints > n || paints + 4 + 6 * long_at(t, paints) <= 0xffff_ffff) && (
    layers > n || layers + 4 + 4 * long_at(t, layers) <= 0xffff_ffff) && (clips > n || 5 + 7
        * long_at(t, clips + 1) <= 0xffff_ffff))
}

/// The list whose count stands at a place can be counted to its end in two bytes.
pub open spec fn list_fits(t: Seq<u8>, p: int) -> bool {
    word(t, p) < 0xffff
}

/// The lists of glyphs of the sets of a `GSUB` subtable.
pub open spec fn sets_fit(t: Seq<u8>, s: int) -> bool {
    forall|j: int|
        0 <= j < word(t, s + 4) ==> list_fits(t, s + #[trigger] word(t, s + 6 + 2 * j))
}

/// The lists of glyphs of a `GSUB` subtable of a kind, but for an extension.
pub open spec fn substitution_fits(t: Seq<u8>, s: int, kind: int) -> bool {
    let format = word(t, s);
    let before = word(t, s + 4);
    let behind = word(t, s + 6 + 2 * before);
    &&& kind == 1 && format == 1 ==> list_fits(t, s + word(t, s + 2) + 2)
    &&& kind == 1 && format == 2 ==> list_fits(t, s + 4)
    &&& (kind == 2 || kind == 3) && format == 1 ==> sets_fit(t, s)
    &&& kind == 8 && format == 1 ==> list_fits(t, s + 8 + 2 * before + 2 * behind)
}

/// The lists of glyphs of a `GSUB` subtable of a kind. An extension does not lead to another
/// one.
pub open spec fn subtable_fits(t: Seq<u8>, s: int, kind: int) -> bool {
    if kind == 7 {
        word(t, s) == 1 ==> word(t, s + 2) != 7 && substitution_fits(
            t,
            s + long(t, s + 4),
            word(t, s + 2),
        )
    } else {
        substitution_fits(t, s, kind)
    }
}

/// The lists of glyphs of the subtables of a lookup.
pub open spec fn lookup_fits(t: Seq<u8>, l: int) -> bool {
    forall|j: int|
        0 <= j < word(t, l + 4) ==> subtable_fits(
            t,
            l + #[trigger] word(t, l + 6 + 2 * j),
            word(t, l),
        )
}

/// The lists of glyphs of the lookups of a `GSUB` table.
pub open spec fn gsub_fits(t: Seq<u8>) -> bool {
    let list = word(t, 8);
    forall|k: int|
        0 <= k < word(t, list) ==> lookup_fits(t, list + #[trigger] word(t, list + 2 + 2 * k))
}

/// Whether the lists of the sets of a subtable can be counted.
fn has_fitting_sets(t: &[u8], s: u64) -> (r: bool)
    requires
        s <= 0xf_ffff_ffff,
    ensures
        r == sets_fit(t@, s as int),
{
    let count: u64 = word_at(t, s + 4);
    let mut j: u64 = 0;
    while j < count
        invariant
            s <= 0xf_ffff_ffff,
            j <= count == word(t@, s + 4),
            count <= 0xffff,
            forall|i: int| 0 <= i < j ==> list_fits(t@, s + #[trigger] word(t@, s + 6 + 2 * i)),
        decreases count - j,
    {
        let set: u64 = word_at(t, s + 6 + 2 * j);
        if word_at(t, s + set) == 0xffff {
            assert(!list_fits(t@, s + word(t@, s + 6 + 2 * j as int)));
            return false;
        }
        j = j + 1;
    }
    true
}

/// Whether the lists of a subtable that is no extension can be counted.
fn has_fitting_substitution(t: &[u8], s: u64, kind: u64) -> (r: bool)
    requires
        s <= 0xf_ffff_ffff,
    ensures
        r == substitution_fits(t@, s as int, kind as int),
{
    let format: u64 = word_at(t, s);
    let before: u64 = word_at(t, s + 4);
    let behind: u64 = word_at(t, s + 6 + 2 * before);
    if kind == 1 && format == 1 {
        word_at(t, s + word_at(t, s + 2) + 2) < 0xffff
    } else if kind == 1 && format == 2 {
        word_at(t, s + 4) < 0xffff
    } else if (kind == 2 || kind == 3) && format == 1 {
        has_fitting_sets(t, s)
    } else if kind == 8 && format == 1 {
        word_at(t, s + 8 + 2 * before + 2 * behind) < 0xffff
    } else {
        true
    }
}

/// Whether the lists of a subtable can be counted.
fn has_fitting_subtable(t: &[u8], s: u64, kind: u64) -> (r: bool)
    requires
        s <= 0x1_ffff_ffff,
    ensures
        r == subtable_fits(t@, s as int, kind as int),
{
    if kind == 7 {
        let inner: u64 = word_at(t, s + 2);
        word_at(t, s) != 1 || (inner != 7 && has_fitting_substitution(
            t,
            s + long_at(t, s + 4),
            inner,
        ))
    } else {
        has_fitting_substitution(t, s, kind)
    }
}

/// Whether the lists of a lookup can be counted.
fn has_fitting_lookup(t: &[u8], l: u64) -> (r: bool)
    requires
        l <= 0xffff_ffff,
    ensures
        r == lookup_fits(t@, l as int),
{
    let kind: u64 = word_at(t, l);
    let count: u64 = word_at(t, l + 4);
    let mut j: u64 = 0;
    while j < count
        invariant
            l <= 0xffff_ffff,
            kind == word(t@, l as int),
            j <= count == word(t@, l + 4),
            count <= 0xffff,
            forall|i: int|
                0 <= i < j ==> subtable_fits(
                    t@,
                    l + #[trigger] word(t@, l + 6 + 2 * i),
                    kind as int,
                ),
        decreases count - j,
    {
        let subtable: u64 = word_at(t, l + 6 + 2 * j);
        if !has_fitting_subtable(t, l + subtable, kind) {
            assert(!subtable_fits(t@, l + word(t@, l + 6 + 2 * j as int), word(t@, l as int)));
            return false;
        }
        j = j + 1;
    }
    true
}

/// Whether the lists of a `GSUB` table can be counted.
fn has_fitting_substitutions(t: &[u8]) -> (r: bool)
    ensures
        r == gsub_fits(t@),
{
    let list: u64 = word_at(t, 8);
    let count: u64 = word_at(t, list);
    let mut k: u64 = 0;
    while k < count
        invariant
            list == word(t@, 8),
            list <= 0xffff,
            k <= count == word(t@, list as int),
            count <= 0xffff,
            forall|i: int|
                0 <= i < k ==> lookup_fits(t@, list + #[trigger] word(t@, list + 2 + 2 * i)),
        decreases count - k,
    {
        let lookup: u64 = word_at(t, list + 2 + 2 * k);
        if !has_fitting_lookup(t, list + lookup) {
            assert(!lookup_fits(t@, list + word(t@, list + 2 + 2 * k as int)));
            return false;
        }
        k = k + 1;
    }
    true
}

/// The table with a tag, if there is one, has a property.
pub open spec fn table_is(
    d: Seq<u8>,
    at: int,
    tag: int,
    property: spec_fn(Seq<u8>) -> bool,
) -> bool {
    table(d, at, tag) matches Some(t) ==> property(t)
}

/// The tables of a face whose lists are walked or whose places are added up. The face has no
/// table `CFF `: it holds programs, and what they count shows only when they are run.
pub open spec fn tables_fit(d: Seq<u8>, at: int) -> bool {
    &&& table_is(d, at, 0x636d6170, |t: Seq<u8>| cmap_fits(t))
    &&& table_is(d, at, 0x73626978, |t: Seq<u8>| sbix_fits(t))
    &&& table_is(d, at, 0x434f4c52, |t: Seq<u8>| colr_fits(t))
    &&& table_is(d, at, 0x4f532f32, |t: Seq<u8>| os2_fits(t))
    &&& table(d, at, 0x43464620) is None
    &&& table_is(d, at, 0x47535542, |t: Seq<u8>| gsub_fits(t))
    &&& table_is(d, at, 0x6e616d65, |t: Seq<u8>| name_fits(t))
}

/// The first face of a file, if the file has one: the records of its directory can be
/// counted to their end in two bytes, and so can its tables.
pub open spec fn face_fits(d: Seq<u8>) -> bool {
    face_start(d) matches Some(at) ==> has_directory(d, at) ==> {
        &&& word(d, at) < 0xffff
        &&& is_face(d, at) ==> tables_fit(d, at)
    }
}

/// The bytes can be handed to the parser of fonts: none of the sums that it makes of what
/// they hold is larger than the number that it is held in. The machine has addresses of
/// 64 bits, and the file is smaller than 2 GiB.
pub open spec fn can_be_parsed(d: Seq<u8>) -> bool {
    &&& usize::BITS == 64
    &&& d.len() <= 0x7fff_ffff
    &&& faces_fit(d)
    &&& face_fits(d)
}

proof fn lemma_table_is_part(d: Seq<u8>, at: int, tag: int, n: int)
    ensures
        table_among(d, at, tag, n) matches Some(t) ==> t.len() <= d.len(),
    decreases n,
{
    if n > 0 {
        lemma_table_is_part(d, at, tag, n - 1);
    }
}

/// Whether the tables of a face fit.
fn has_fitting_tables(d: &[u8], at: u64) -> (r: bool)
    requires
        at <= 0x1_0000_0003,
        d@.len() <= 0x7fff_ffff,
    ensures
        r == tables_fit(d@, at as int),
{
    proof {
        lemma_table_is_part(d@, at as int, 0x6e616d65, word(d@, at as int));
    }
    let cmap = match find_table(d, at, 0x636d6170) {
        Some(t) => has_fitting_mappings(t),
        None => true,
    };
    let sbix = match find_table(d, at, 0x73626978) {
        Some(t) => has_fitting_strikes(t),
        None => true,
    };
    let colr = match find_table(d, at, 0x434f4c52) {
        Some(t) => has_fitting_colors(t),
        None => true,
    };
    let os2 = match find_table(d, at, 0x4f532f32) {
        Some(t) => word_at(t, 76) != 0x8000,
        None => true,
    };
    let gsub = match find_table(d, at, 0x47535542) {
        Some(t) => has_fitting_substitutions(t),
        None => true,
    };
    let name = match find_table(d, at, 0x6e616d65) {
        Some(t) => has_readable_name(t),
        None => true,
    };
    cmap && sbix && colr && os2 && find_table(d, at, 0x43464620).is_none() && gsub && name
}

/// Whether the bytes can be handed to the parser of fonts.
pub fn can_parse_font(d: &[u8]) -> (r: bool)
    ensures
        r == can_be_parsed(d@),
{
    if usize::BITS != 64 || d.len() > 0x7fff_ffff || (long_at(d, 0) == 0x74746366 && 12 + 4
        * long_at(d, 8) > 0xffff_ffff) {
        return false;
    }
    match find_face(d) {
        Some(at) => {
            let count: u64 = word_at(d, at);
            if at + 8 + 16 * count > d.len() as u64 {
                true
            } else {
                count < 0xffff && (!has_face(d, at) || has_fitting_tables(d, at))
            }
        },
        None => true,
    }
}

} // verus!
