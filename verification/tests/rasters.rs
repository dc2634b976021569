use ttf_rasterizer::font_file::can_parse_font;
use ttf_rasterizer::profile::RasterProfile;
use ttf_rasterizer::raster::{
    can_rasterize_line, can_rasterize_text, glyph_requests, ink_chars, parse_font, rasterize_line,
    rasterize_text_to_ascii, trim_vertical, Glyph,
};
use ttf_rasterizer::text::lines_of;

fn glyph(width: usize, height: usize, advance: usize, bitmap: &[u8]) -> Glyph {
    Glyph { width, height, advance, bitmap: bitmap.to_vec() }
}

fn texts(lines: &[&str]) -> Vec<String> {
    lines.iter().map(|l| l.to_string()).collect()
}

fn pair() -> Vec<Glyph> {
    vec![glyph(2, 2, 2, &[255, 0, 0, 255]), glyph(1, 1, 1, &[128])]
}

#[test]
fn line_of_two_glyphs() {
    assert_eq!(rasterize_line("AB", &pair(), 0, RasterProfile::Classic), texts(&["@  =", " @"]));
    assert_eq!(rasterize_line("AB", &pair(), 0, RasterProfile::Binary), texts(&["#", " #"]));
    assert_eq!(
        rasterize_line("AB", &pair(), 0, RasterProfile::Inverted),
        texts(&[" @@+@", "@ @@@"])
    );
}

#[test]
fn spaces_move_the_pen() {
    assert_eq!(
        rasterize_line(" A B", &pair(), 2, RasterProfile::Classic),
        texts(&["   @     =", "    @"])
    );
}

#[test]
fn wide_advances_and_empty_glyphs() {
    let glyphs = vec![glyph(1, 1, 4, &[255]), glyph(0, 9, 2, &[]), glyph(1, 1, 0, &[255])];
    assert_eq!(rasterize_line("a_b", &glyphs, 0, RasterProfile::Binary), texts(&["#       #"]));
}

#[test]
fn low_glyphs_stand_in_the_middle() {
    let glyphs = vec![glyph(1, 4, 1, &[255; 4]), glyph(1, 1, 1, &[255])];
    assert_eq!(
        rasterize_line("lo", &glyphs, 0, RasterProfile::Binary),
        texts(&["#", "# #", "#", "#"])
    );
}

#[test]
fn shades_follow_the_ramp() {
    let values: Vec<u8> = (0..=255).collect();
    let line = rasterize_line("x", &vec![glyph(256, 1, 256, &values)], 0, RasterProfile::Dense);
    let ramp: Vec<char> = RasterProfile::Dense.ramp().chars().collect();
    let wanted: String = (0..=255usize).map(|v| ramp[v * (ramp.len() - 1) / 255]).collect();
    assert_eq!(line, vec![wanted]);
}

#[test]
fn blank_lines_become_one_empty_row() {
    assert_eq!(rasterize_line("", &Vec::new(), 5, RasterProfile::Inverted), texts(&[""]));
    assert_eq!(rasterize_line("   ", &Vec::new(), 5, RasterProfile::Classic), texts(&[""]));
    assert_eq!(
        rasterize_line("   ", &Vec::new(), 1, RasterProfile::Inverted),
        texts(&["@@@@@@"])
    );
    assert_eq!(
        rasterize_line("x", &vec![glyph(1, 2, 1, &[0, 0])], 0, RasterProfile::Classic),
        texts(&[""])
    );
}

#[test]
fn vertical_trim() {
    assert_eq!(trim_vertical(texts(&["", " ", "a", "", "b", "\t"])), texts(&["a", "", "b"]));
    assert_eq!(trim_vertical(texts(&["", "  "])), texts(&[""]));
    assert_eq!(trim_vertical(Vec::new()), texts(&[""]));
    let once = trim_vertical(texts(&["", "x", ""]));
    assert_eq!(trim_vertical(once.clone()), once);
}

#[test]
fn text_of_several_lines() {
    assert_eq!(glyph_requests("A B\r\n\nAA"), vec![vec!['A', 'B'], vec![], vec!['A', 'A']]);
    assert_eq!(ink_chars(" a b "), vec!['a', 'b']);
    let dot = || glyph(1, 1, 1, &[255]);
    let glyphs = vec![vec![dot()], vec![], vec![dot(), dot()]];
    assert!(can_rasterize_text("x\n\nyz", &glyphs, 0));
    assert_eq!(
        rasterize_text_to_ascii("x\n\nyz", &glyphs, 0, RasterProfile::Binary),
        "#\n\n\n\n# #"
    );
    assert_eq!(rasterize_text_to_ascii("", &Vec::new(), 0, RasterProfile::Binary), "");
    assert_eq!(rasterize_text_to_ascii("\n", &vec![vec![]], 0, RasterProfile::Binary), "");
}

#[test]
fn sprite_lines_are_rows_of_the_ramp() {
    let glyphs = vec![pair(), vec![], pair()];
    for profile in RasterProfile::all() {
        let art = rasterize_text_to_ascii("AB \n \nA B", &glyphs, 1, *profile);
        let rows = lines_of(&art);
        assert_eq!(rows.join("\n"), art);
        assert!(!rows[0].trim().is_empty() && !rows[rows.len() - 1].trim().is_empty());
        for row in &rows {
            assert!(!row.ends_with(' '));
            assert!(row.chars().all(|c| profile.ramp().contains(c)));
        }
    }
}

#[test]
fn what_cannot_be_drawn_is_seen() {
    assert!(can_rasterize_line("AB", &pair(), 0));
    assert!(!can_rasterize_line("A", &pair(), 0));
    assert!(!can_rasterize_line("ABC", &pair(), 0));
    assert!(!can_rasterize_line("A", &vec![glyph(2, 2, 0, &[0; 3])], 0));
    assert!(!can_rasterize_line("A", &vec![glyph(0, 0, usize::MAX, &[])], 0));
    assert!(!can_rasterize_line("  ", &Vec::new(), isize::MAX as usize));
    assert!(can_rasterize_line(" ", &Vec::new(), isize::MAX as usize - 1));
    assert!(!can_rasterize_text("a\nb", &vec![vec![glyph(0, 0, 0, &[])]], 0));
}

fn words(values: &[u16]) -> Vec<u8> {
    values.iter().flat_map(|v| v.to_be_bytes()).collect()
}

/// A face of the given tables, for the place `base` of a file.
fn face(base: usize, tables: &[(&[u8; 4], Vec<u8>)]) -> Vec<u8> {
    let mut out = words(&[1, 0, tables.len() as u16, 0, 0, 0]);
    let mut place = base + 12 + 16 * tables.len();
    for (tag, data) in tables {
        out.extend_from_slice(*tag);
        out.extend_from_slice(&[0; 4]);
        out.extend_from_slice(&(place as u32).to_be_bytes());
        out.extend_from_slice(&(data.len() as u32).to_be_bytes());
        place += data.len();
    }
    for (_, data) in tables {
        out.extend_from_slice(data);
    }
    out
}

/// The tables of a font of two glyphs without outlines, 500 units wide of 1000.
fn small_tables() -> Vec<(&'static [u8; 4], Vec<u8>)> {
    let mut head = vec![0u8; 54];
    head[18..20].copy_from_slice(&1000u16.to_be_bytes());
    let mut hhea = vec![0u8; 36];
    hhea[34..36].copy_from_slice(&1u16.to_be_bytes());
    vec![
        (b"head", head),
        (b"hhea", hhea),
        (b"hmtx", words(&[500, 0])),
        (b"maxp", words(&[0, 0x5000, 2])),
    ]
}

fn small_font() -> Vec<u8> {
    face(0, &small_tables())
}

/// A table that maps the letter A to a glyph.
fn mapping(glyph: u16) -> (&'static [u8; 4], Vec<u8>) {
    (b"cmap", words(&[0, 1, 3, 1, 0, 12, 6, 12, 0, 65, 1, glyph]))
}

/// A table with one full name.
fn naming(platform: u16, name: &[u8]) -> (&'static [u8; 4], Vec<u8>) {
    let mut out = words(&[0, 1, 18, platform, 1, 0x409, 4, name.len() as u16, 0]);
    out.extend_from_slice(name);
    (b"name", out)
}

fn with(table: (&'static [u8; 4], Vec<u8>)) -> Vec<u8> {
    let mut tables = small_tables();
    tables.push(table);
    face(0, &tables)
}

#[test]
fn fonts_are_parsed() {
    assert!(can_parse_font(&small_font()));
    let font = parse_font(&small_font()).expect("a whole font");
    assert_eq!(font.glyph_count(), 2);
    assert!(font.chars().is_empty());
    let (metrics, bitmap) = font.rasterize('x', 24.0);
    assert_eq!((metrics.width, metrics.height, bitmap.len()), (0, 0, 0));
    assert_eq!(metrics.advance_width, 12.0);
}

#[test]
fn fonts_map_characters_to_glyphs() {
    let bytes = with(mapping(1));
    assert!(can_parse_font(&bytes));
    let font = parse_font(&bytes).expect("a whole font");
    assert_eq!(font.chars().len(), 1);
    assert_eq!(font.chars().get(&'A').map(|n| n.get()), Some(1));
    let error = parse_font(&with(mapping(2))).err().expect("no such glyph");
    assert_eq!(error.reason, "Attempted to map a codepoint out of bounds.");
}

#[test]
fn broken_fonts_are_refused() {
    assert!(can_parse_font(b"not a font"));
    let error = parse_font(b"not a font").err().expect("no font");
    assert_eq!(
        error.message(),
        "failed to parse font bytes: Face data must start with 0x00010000, 0x74727565, 0x4F54544F or 0x74746366."
    );
    let mut cut = small_font();
    cut[12] = b'x';
    assert!(can_parse_font(&cut));
    let error = parse_font(&cut).err().expect("no head table");
    assert_eq!(error.reason, "The head table is missing or malformed.");
}

#[test]
fn names_must_be_whole() {
    for name in [words(&[]), words(&[0x41, 0x62]), words(&[0xd83d, 0xde00]), words(&[0xd800, 0xe000])] {
        let bytes = with(naming(3, &name));
        assert!(can_parse_font(&bytes));
        assert!(parse_font(&bytes).is_ok());
    }
    let bytes = with(naming(0, &words(&[0x41, 0xd83d, 0xde00])));
    assert!(can_parse_font(&bytes));
    assert_eq!(parse_font(&bytes).ok().unwrap().name(), Some("A\u{1f600}"));
    for name in [vec![0x41], vec![0, 0x41, 0], words(&[0xd83d]), words(&[0xde00, 0xde00])] {
        assert!(!can_parse_font(&with(naming(3, &name))));
        assert!(!can_parse_font(&with(naming(0, &name))));
        assert!(can_parse_font(&with(naming(1, &name))));
        assert!(can_parse_font(&with(naming(5, &name))));
    }
    assert!(!can_parse_font(&with(naming(3, &words(&[0xd83d, 0x41])))));
}

#[test]
fn only_the_name_that_is_read_counts() {
    let odd = [1, 2, 3];
    let mut broken = with(naming(3, &odd));
    broken[12] = b'x';
    assert!(can_parse_font(&broken));
    assert!(parse_font(&broken).is_err());
    let mut tables = small_tables();
    tables.push(naming(3, &odd));
    tables.push(naming(3, &words(&[0x41])));
    assert!(can_parse_font(&face(0, &tables)));
    tables.swap(4, 5);
    assert!(!can_parse_font(&face(0, &tables)));
    let mut short = naming(3, &odd).1;
    short.pop();
    assert!(can_parse_font(&with((b"name", short))));
    let (_, mut other) = naming(3, &odd);
    other[13] = 1;
    assert!(can_parse_font(&with((b"name", other))));
}

#[test]
fn collections_are_read_at_their_first_face() {
    let start = |faces: u16| words(&[0x7474, 0x6366, 1, 0, 0, faces, 0, 16]);
    let mut bytes = start(1);
    bytes.extend(face(16, &small_tables()));
    assert!(can_parse_font(&bytes));
    assert!(parse_font(&bytes).is_ok());
    let mut tables = small_tables();
    tables.push(naming(3, &[1]));
    let mut bytes = start(1);
    bytes.extend(face(16, &tables));
    assert!(!can_parse_font(&bytes));
    let mut bytes = start(0);
    bytes.extend(face(16, &tables));
    assert!(can_parse_font(&bytes));
    let error = parse_font(&bytes).err().expect("no face");
    assert_eq!(error.reason, "The face index is larger than the number of faces in the font.");
    assert!(!can_parse_font(&words(&[0x7474, 0x6366, 1, 0, 0xffff, 0xffff, 0, 16])));
}

#[test]
fn directories_must_be_counted() {
    let mut bytes = words(&[1, 0, 0xffff, 0, 0, 0]);
    bytes.resize(12 + 16 * 0xffff, 0);
    assert!(!can_parse_font(&bytes));
    bytes.pop();
    assert!(can_parse_font(&bytes));
    assert!(parse_font(&bytes).is_err());
}

/// A mapping in the given subtable.
fn mapping_in(subtable: &[u16]) -> (&'static [u8; 4], Vec<u8>) {
    let mut out = words(&[0, 1, 3, 10, 0, 12]);
    out.extend(words(subtable));
    (b"cmap", out)
}

/// The two halves of a number, the high one first.
fn halves(n: u32) -> (u16, u16) {
    ((n >> 16) as u16, n as u16)
}

#[test]
fn long_mappings_are_read() {
    for format in [12, 13] {
        let bytes = with(mapping_in(&[format, 0, 0, 28, 0, 0, 0, 1, 0, 65, 0, 65, 0, 1]));
        assert!(can_parse_font(&bytes));
        let font = parse_font(&bytes).expect("a whole font");
        assert_eq!(font.chars().get(&'A').map(|n| n.get()), Some(1));
    }
    let bytes = with(mapping_in(&[10, 0, 0, 22, 0, 0, 0, 65, 0, 1, 1]));
    assert!(can_parse_font(&bytes));
    let font = parse_font(&bytes).expect("a whole font");
    assert_eq!(font.chars().get(&'A').map(|n| n.get()), Some(1));
}

#[test]
fn mappings_must_end_at_a_place() {
    let table = |format: u16, count: u32| {
        let (high, low) = halves(count);
        match format {
            10 => mapping_in(&[10, 0, 0, 20, 0, 0, 0, 65, high, low]),
            14 => mapping_in(&[14, 0, 10, high, low]),
            _ => mapping_in(&[format, 0, 0, 16, 0, 0, high, low]),
        }
    };
    for (format, most) in [
        (10, 0x7fff_fff5),
        (12, 0x1555_5553),
        (13, 0x1555_5553),
        (14, 0x1745_d173),
    ] {
        let bytes = with(table(format, most));
        assert!(can_parse_font(&bytes));
        assert!(parse_font(&bytes).is_ok());
        assert!(!can_parse_font(&with(table(format, most + 1))));
        assert!(!can_parse_font(&with(table(format, u32::MAX))));
    }
    let mut two = words(&[0, 2, 3, 1, 0, 20, 3, 10, 0, 32]);
    two.extend(words(&[6, 12, 0, 65, 1, 1]));
    two.extend(words(&[12, 0, 0, 16, 0, 0, 0xffff, 0xffff]));
    assert!(!can_parse_font(&with((b"cmap", two.clone()))));
    two[3] = 1;
    let bytes = with((b"cmap", two));
    assert!(can_parse_font(&bytes));
    assert!(parse_font(&bytes).is_ok());
}

#[test]
fn strikes_and_colors_must_end_at_a_place() {
    let strikes = |count: u32| {
        let (high, low) = halves(count);
        with((b"sbix", words(&[1, 0, high, low])))
    };
    assert!(can_parse_font(&strikes(0x3fff_fffd)));
    assert!(parse_font(&strikes(0x3fff_fffd)).is_ok());
    assert!(!can_parse_font(&strikes(0x3fff_fffe)));
    let colors = |paints: u32, layers: u32, clips: u32| {
        let (p, q) = halves(paints);
        let (l, m) = halves(layers);
        let (c, d) = halves(clips);
        let mut out = words(&[1, 0, 0, 0, 0, 0, 0, 0, 26, 0, 30, 0, 34, p, q, l, m]);
        out.push(1);
        out.extend(words(&[c, d]));
        let mut tables = small_tables();
        tables.push((b"COLR", out));
        tables.push((b"CPAL", words(&[0, 1, 1, 1, 0, 14, 0, 0, 0])));
        face(0, &tables)
    };
    assert!(can_parse_font(&colors(0x2aaa_aaa5, 0x3fff_fff7, 0x2492_4923)));
    assert!(parse_font(&colors(0x2aaa_aaa5, 0x3fff_fff7, 0x2492_4923)).is_ok());
    assert!(parse_font(&colors(0, 0x3fff_fff7, 0x2492_4923)).is_ok());
    assert!(parse_font(&colors(0, 0, 0x2492_4923)).is_ok());
    assert!(!can_parse_font(&colors(0x2aaa_aaa6, 0, 0)));
    assert!(!can_parse_font(&colors(0, 0x3fff_fff8, 0)));
    assert!(!can_parse_font(&colors(0, 0, 0x2492_4924)));
}

#[test]
fn depths_must_be_negated() {
    let depth = |n: u16| {
        let mut out = vec![0u8; 78];
        out[76..78].copy_from_slice(&n.to_be_bytes());
        with((b"OS/2", out))
    };
    assert!(can_parse_font(&depth(0x8001)));
    assert!(parse_font(&depth(0x8001)).is_ok());
    assert!(!can_parse_font(&depth(0x8000)));
}

#[test]
fn programs_are_not_run() {
    assert!(!can_parse_font(&with((b"CFF ", vec![1, 0, 4, 1]))));
    let mut broken = with((b"CFF ", vec![1, 0, 4, 1]));
    broken[12] = b'x';
    assert!(can_parse_font(&broken));
    assert!(parse_font(&broken).is_err());
}

/// A table with one substitution of a kind.
fn substitution(kind: u16, subtable: &[u16]) -> Vec<u8> {
    let mut out = words(&[1, 0, 10, 10, 12, 0, 1, 4, kind, 0, 1, 8]);
    out.extend(words(subtable));
    with((b"GSUB", out))
}

#[test]
fn substitutions_must_be_counted() {
    for (kind, good, bad) in [
        (1, vec![1, 6, 1, 1, 1, 0], vec![1, 6, 1, 1, 0xffff, 0]),
        (1, vec![1, 6, 1, 2, 1, 0, 0, 0], vec![1, 6, 1, 2, 0xffff, 0]),
        (1, vec![2, 8, 1, 1, 1, 1, 0], vec![2, 8, 0xffff, 1, 1, 1, 0]),
        (2, vec![1, 12, 1, 8, 1, 1, 1, 1, 0], vec![1, 12, 1, 8, 0xffff, 1]),
        (3, vec![1, 12, 1, 8, 1, 1, 1, 1, 0], vec![1, 12, 1, 8, 0xffff, 1]),
        (4, vec![1, 6, 0, 1, 1, 0], vec![]),
        (8, vec![1, 12, 0, 0, 1, 1, 1, 1, 0], vec![1, 12, 0, 0, 0xffff, 1]),
    ] {
        let extended = |subtable: &[u16]| {
            let mut out = vec![1, kind, 0, 8];
            out.extend_from_slice(subtable);
            substitution(7, &out)
        };
        for bytes in [substitution(kind, &good), extended(&good)] {
            assert!(can_parse_font(&bytes));
            assert!(parse_font(&bytes).is_ok());
        }
        if !bad.is_empty() {
            assert!(!can_parse_font(&substitution(kind, &bad)));
            assert!(!can_parse_font(&extended(&bad)));
        }
    }
}

#[test]
fn extensions_lead_to_no_extension() {
    assert!(!can_parse_font(&substitution(7, &[1, 7, 0, 8, 1, 1, 0, 8])));
    let bytes = substitution(7, &[2, 7, 0, 8]);
    assert!(can_parse_font(&bytes));
    assert!(parse_font(&bytes).is_ok());
}

/// The tables of two glyphs with outlines: a triangle, and the triangle once more.
fn outlines() -> Vec<(&'static [u8; 4], Vec<u8>)> {
    let mut glyf = words(&[1, 0, 0, 100, 100, 2, 0]);
    glyf.extend_from_slice(&[1, 1, 1]);
    glyf.extend(words(&[0, 100, 0xff9c, 0, 0, 100]));
    glyf.push(0);
    let first = glyf.len() as u16 / 2;
    glyf.extend(words(&[0xffff, 0, 0, 100, 100, 0x000b, 0, 10, 10, 0x4000]));
    let end = glyf.len() as u16 / 2;
    vec![(b"glyf", glyf), (b"loca", words(&[0, first, end]))]
}

/// A font with outlines and a table of each other kind that is read.
fn large_font() -> Vec<u8> {
    let mut tables = small_tables();
    tables.extend(outlines());
    let mut cmap = words(&[0, 4, 0, 3, 0, 36, 3, 1, 0, 48, 3, 10, 0, 80, 0, 5, 0, 102]);
    cmap.extend(words(&[6, 12, 0, 65, 1, 1]));
    cmap.extend(words(&[4, 32, 0, 4, 0, 0, 0, 66, 0xffff, 0, 66, 0xffff, 0xffbf, 1, 0, 0]));
    cmap.extend(words(&[10, 0, 0, 22, 0, 0, 0, 67, 0, 1, 1]));
    cmap.extend(words(&[14, 0, 10, 0, 0]));
    tables.push((b"cmap", cmap));
    let mut gsub = words(&[1, 0, 10, 10, 12, 0, 3, 8, 30, 52]);
    gsub.extend(words(&[1, 0, 1, 8, 1, 6, 1, 1, 1, 0, 0]));
    gsub.extend(words(&[2, 0, 1, 8, 1, 8, 1, 8, 1, 1, 0]));
    gsub.extend(words(&[7, 0, 1, 8, 1, 3, 0, 8, 1, 8, 1, 8, 1, 1, 0]));
    tables.push((b"GSUB", gsub));
    tables.push(naming(3, &words(&[0x41, 0xd83d, 0xde00])));
    tables.push((b"OS/2", vec![0; 96]));
    tables.push((b"kern", words(&[0, 1, 0, 20, 1, 1, 0, 0, 0, 0, 1, 5])));
    tables.push((b"post", vec![0; 32]));
    tables.push((b"sbix", words(&[1, 0, 0, 1, 0, 12, 20, 72, 0, 12, 0, 12])));
    tables.push((b"COLR", words(&[1, 0, 0, 0, 0, 0, 0, 0, 26, 0, 30, 0, 34, 0, 0, 0, 0, 256, 0, 0])));
    tables.push((b"CPAL", words(&[0, 1, 1, 1, 0, 14, 0, 0, 0])));
    tables.push((b"vhea", vec![0; 36]));
    face(0, &tables)
}

#[test]
fn what_can_be_parsed_is_parsed() {
    let whole = large_font();
    assert!(can_parse_font(&whole));
    let font = parse_font(&whole).expect("a whole font");
    assert_eq!(font.chars().len(), 3);
    let (metrics, _) = font.rasterize('A', 100.0);
    assert_eq!((metrics.width, metrics.height), (10, 10));
    for place in 0..whole.len() - 1 {
        for value in [0u16, 1, 7, 0x7fff, 0x8000, 0xfffe, 0xffff] {
            let mut bytes = whole.clone();
            bytes[place..place + 2].copy_from_slice(&value.to_be_bytes());
            if can_parse_font(&bytes) {
                if let Err(error) = parse_font(&bytes) {
                    assert!(!error.reason.is_empty());
                }
            }
        }
    }
}
