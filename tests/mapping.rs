use ascii_art::{
    grid_size, open_font, printable_ascii, Error, FontData, GlyphProbe, Image, ImageFormat, MapEntry, FULL,
    SUBPIXELS,
};

const REPLACEMENT_GLYPH: u16 = 0;

/// A probe as a Latin monospace font at 12 px would report it: every
/// printable character has an outline except the space; the coverage is a
/// fixed, uneven function of the code point.
fn latin_probe(c: char) -> GlyphProbe {
    let n = c as u32;
    if (0x20..0x7f).contains(&n) {
        let coverage = if c == ' ' { None } else { Some(((n as u64 * 7919) % 997) * 64 + 5) };
        GlyphProbe { chr: c, glyph: n as u16, coverage, advance: 7 * SUBPIXELS + 13 }
    } else {
        GlyphProbe { chr: c, glyph: REPLACEMENT_GLYPH, coverage: None, advance: 0 }
    }
}

const HEIGHT: u32 = 14 * 64;

fn test_font() -> FontData {
    let probes: Vec<GlyphProbe> = printable_ascii().into_iter().map(latin_probe).collect();
    match FontData::from_glyphs(&probes, REPLACEMENT_GLYPH, HEIGHT) {
        Ok(Ok(fd)) => fd,
        _ => panic!("the printable ASCII probes build a mapping"),
    }
}

fn query(k: usize, n: usize) -> i32 {
    ((k as u64 * FULL as u64) / n as u64) as i32
}

#[test]
fn printable_ascii_is_the_95_printable_characters() {
    let chars = printable_ascii();
    assert_eq!(chars.len(), 95);
    assert_eq!(chars[0], ' ');
    assert_eq!(chars[94], '~');
    assert!(chars.windows(2).all(|w| w[0] as u32 + 1 == w[1] as u32));
}

#[test]
fn make_font_data() {
    let data = test_font();
    assert_eq!(data.values().len(), 95);
    let mut chars: Vec<char> = printable_ascii();
    for n in 0x1100u32..0x112f {
        chars.push(char::from_u32(n).unwrap());
    }
    let probes: Vec<GlyphProbe> = chars.iter().copied().map(latin_probe).collect();
    match FontData::from_glyphs(&probes, REPLACEMENT_GLYPH, HEIGHT) {
        Ok(Err((fd, bad))) => {
            assert_eq!(fd.values().len(), 95);
            let expected: Vec<char> = (0x1100u32..0x112f).map(|n| char::from_u32(n).unwrap()).collect();
            assert_eq!(bad, expected);
        },
        other => panic!("expected a mapping with rejections, got {:?}", other),
    }
}

#[test]
fn normalization_puts_values_in_unit_range_with_max_one() {
    let fd = test_font();
    let v = fd.values();
    assert_eq!(v.last().unwrap().val, FULL);
    assert!(v.iter().all(|e| e.val <= FULL));
    assert_eq!(v[0], MapEntry { chr: ' ', val: 0 });
}

#[test]
fn normalized_value_is_coverage_over_max() {
    let probes = vec![
        GlyphProbe { chr: '.', glyph: 1, coverage: Some(10), advance: 64 },
        GlyphProbe { chr: '#', glyph: 2, coverage: Some(40), advance: 64 },
        GlyphProbe { chr: '+', glyph: 3, coverage: Some(20), advance: 80 },
    ];
    let fd = match FontData::from_glyphs(&probes, 0, 128) {
        Ok(Ok(fd)) => fd,
        other => panic!("unexpected {:?}", other),
    };
    assert_eq!(
        fd.values().clone(),
        vec![
            MapEntry { chr: '.', val: 16383 },
            MapEntry { chr: '+', val: 32767 },
            MapEntry { chr: '#', val: 65535 },
        ]
    );
    assert_eq!(fd.geometry(), (80, 128));
    assert_eq!(fd.fudge_divisor(), 3);
}

#[test]
fn values_are_sorted_and_ties_keep_input_order() {
    let probes = vec![
        GlyphProbe { chr: 'b', glyph: 1, coverage: Some(5), advance: 64 },
        GlyphProbe { chr: 'a', glyph: 2, coverage: Some(5), advance: 64 },
        GlyphProbe { chr: 'c', glyph: 3, coverage: Some(1), advance: 64 },
    ];
    let fd = FontData::from_glyphs(&probes, 0, 64).unwrap().unwrap();
    let chars: Vec<char> = fd.values().iter().map(|e| e.chr).collect();
    assert_eq!(chars, vec!['c', 'b', 'a']);
    let full = test_font();
    assert!(full.values().windows(2).all(|w| w[0].val <= w[1].val));
}

#[test]
fn geometry_is_positive_and_fudge_is_one_over_length() {
    let fd = test_font();
    let (w, h) = fd.geometry();
    assert_eq!((w, h), (7 * 64 + 13, 14 * 64));
    assert_eq!(fd.fudge_divisor(), fd.values().len());
}

#[test]
fn get_pixels() {
    let data = test_font();
    let end = 256usize;
    let charz: Vec<char> = (0..end).map(|n| data.pixel(query(n, end))).collect();
    assert!(charz.iter().all(|c| data.values().iter().any(|e| e.chr == *c)));
    assert_eq!(charz[0], ' ');
}

#[test]
fn lookup_is_first_entry_at_least_key() {
    let values = vec![
        MapEntry { chr: 'a', val: 0 },
        MapEntry { chr: 'b', val: 30000 },
        MapEntry { chr: 'c', val: 30000 },
        MapEntry { chr: 'd', val: 65535 },
    ];
    let fd = FontData::from_parts(values, 64, 64, 4).unwrap();
    // fudge 1/4: key = q - 16383.75
    assert_eq!(fd.pixel(16383), 'a');
    assert_eq!(fd.pixel(16384), 'b');
    assert_eq!(fd.pixel(46383), 'b');
    assert_eq!(fd.pixel(46384), 'd');
    assert_eq!(fd.pixel(FULL as i32), 'd');
}

#[test]
fn clamping_at_both_ends() {
    let fd = test_font();
    let first = fd.values()[0].chr;
    let last = fd.values().last().unwrap().chr;
    assert_eq!(fd.pixel(-1), first);
    assert_eq!(fd.pixel(-100000), first);
    assert_eq!(fd.pixel(2 * FULL as i32), last);
    assert_eq!(fd.pixel_inv(FULL as i32 + 1), first);
    assert_eq!(fd.pixel_inv(-(FULL as i32)), last);
}

#[test]
fn inverted_lookup_mirrors_intensity() {
    let fd = test_font();
    for q in (-1000i32..(FULL as i32 + 1000)).step_by(97) {
        assert_eq!(fd.pixel_inv(q), fd.pixel(FULL as i32 - q));
    }
    assert_ne!(fd.pixel_inv(0), fd.pixel(0));
}

#[test]
fn serde() {
    let font = test_font();
    let mut data: Vec<u8> = Vec::new();
    font.serialize(&mut data);
    let deserialized = FontData::deserialize(&data).unwrap();
    assert_eq!(font.geometry(), deserialized.geometry());
    assert_eq!(font.fudge_divisor(), deserialized.fudge_divisor());
    assert_eq!(font.values(), deserialized.values());
}

#[test]
fn serialized_text_is_json_with_decimals() {
    let values = vec![MapEntry { chr: ' ', val: 0 }, MapEntry { chr: 'é', val: 65535 }];
    let fd = FontData::from_parts(values, 461, 896, 2).unwrap();
    let mut out: Vec<u8> = Vec::new();
    fd.serialize(&mut out);
    assert_eq!(
        String::from_utf8(out.clone()).unwrap(),
        "{\"values\":[[\"\\u0020\",0.0000000000],[\"\\u00e9\",1.0000000000]],\"width\":7.203125,\"height\":14.000000,\"fudge_factor\":0.50000000000000000000}"
    );
    let back = FontData::deserialize(&out).unwrap();
    assert_eq!(back.values()[1].chr, 'é');
    assert_eq!(back.geometry(), (461, 896));
    assert_eq!(back.fudge_divisor(), 2);
}

#[test]
fn deserialize_reads_the_plain_layout() {
    let text = "{\"values\":[[\" \",0.0],[\"#\",1.0]],\"width\":7.0,\"height\":14.0,\"fudge_factor\":0.25}";
    let fd = FontData::deserialize(text.as_bytes()).unwrap();
    assert_eq!(
        fd.values().clone(),
        vec![MapEntry { chr: ' ', val: 0 }, MapEntry { chr: '#', val: 65535 }]
    );
    assert_eq!(fd.geometry(), (7 * 64, 14 * 64));
    assert_eq!(fd.fudge_divisor(), 4);
}

#[test]
fn deserialize_rounds_and_unescapes() {
    let text = "{\"values\":[[\"\\\"\",0.25],[\"\\\\\",0.5],[\"\\ud83d\\ude00\",1]],\"width\":7.2,\"height\":13,\"fudge_factor\":0.3333}";
    let fd = FontData::deserialize(text.as_bytes()).unwrap();
    assert_eq!(
        fd.values().clone(),
        vec![
            MapEntry { chr: '"', val: 16384 },
            MapEntry { chr: '\\', val: 32768 },
            MapEntry { chr: '\u{1F600}', val: 65535 },
        ]
    );
    assert_eq!(fd.geometry(), (461, 832));
    assert_eq!(fd.fudge_divisor(), 3);
    let mut out: Vec<u8> = Vec::new();
    fd.serialize(&mut out);
    let again = FontData::deserialize(&out).unwrap();
    assert_eq!(again.values(), fd.values());
    assert_eq!(again.fudge_divisor(), 3);
}

#[test]
fn round_trip_keeps_a_pruned_fudge_factor() {
    let mut font = test_font();
    font.prune_for_n_intensities(8);
    let mut data: Vec<u8> = Vec::new();
    font.serialize(&mut data);
    let back = FontData::deserialize(&data).unwrap();
    assert_eq!(back.fudge_divisor(), 95);
    assert_eq!(back.values(), font.values());
}

#[test]
fn deserialize_reads_raw_utf8_characters() {
    let text = "{\"values\":[[\"é\",0.5],[\"€\",0.75],[\"😀\",1.0]],\"width\":8.0,\"height\":16.0,\"fudge_factor\":0.5}";
    let fd = FontData::deserialize(text.as_bytes()).unwrap();
    let chars: Vec<char> = fd.values().iter().map(|e| e.chr).collect();
    assert_eq!(chars, vec!['é', '€', '😀']);
    for bad in [
        &b"{\"values\":[[\"\xc0\x80\",0.5]],\"width\":8.0,\"height\":16.0,\"fudge_factor\":0.5}"[..],
        &b"{\"values\":[[\"\xed\xa0\x80\",0.5]],\"width\":8.0,\"height\":16.0,\"fudge_factor\":0.5}"[..],
        &b"{\"values\":[[\"\xe2\x82\",0.5]],\"width\":8.0,\"height\":16.0,\"fudge_factor\":0.5}"[..],
    ] {
        assert!(matches!(FontData::deserialize(bad), Err(Error::IOError(_))));
    }
}

#[test]
fn deserialize_rejects_malformed_text() {
    for text in [
        "",
        "{}",
        "{\"values\":[],\"width\":1.0,\"height\":1.0,\"fudge_factor\":1.0}",
        "{\"values\":[[32,0]],\"width\":1.0,\"height\":1.0,\"fudge_factor\":1.0}",
        "{\"values\":[[\" \",0.0]],\"width\":0.0,\"height\":1.0,\"fudge_factor\":1.0}",
        "{\"values\":[[\" \",0.0]],\"width\":1.0,\"height\":1.0,\"fudge_factor\":0.0}",
        "{\"values\":[[\" \",0.5],[\"!\",0.1]],\"width\":1.0,\"height\":1.0,\"fudge_factor\":1.0}",
        "{\"values\":[[\" \",1.5]],\"width\":1.0,\"height\":1.0,\"fudge_factor\":1.0}",
        "{\"values\":[[\"\\ud800\",0.0]],\"width\":1.0,\"height\":1.0,\"fudge_factor\":1.0}",
        "{\"values\":[[\"ab\",0.0]],\"width\":1.0,\"height\":1.0,\"fudge_factor\":1.0}",
        "{\"values\":[[\" \",0.]],\"width\":1.0,\"height\":1.0,\"fudge_factor\":1.0}",
        "{\"values\":[[\" \",0.0]],\"width\":1.0,\"height\":1.0,\"fudge_factor\":1.0} ",
        "{\"values\":[[\" \",0.0]],\"width\":1.0,\"height\":1.0,\"fudge_divisor\":1}",
    ] {
        match FontData::deserialize(text.as_bytes()) {
            Err(Error::IOError(_)) => {},
            other => panic!("{:?} gave {:?}", text, other),
        }
    }
    let ok = "{\"values\":[[\" \",0.0]],\"width\":1.0,\"height\":1.0,\"fudge_factor\":1.0}";
    assert!(FontData::deserialize(ok.as_bytes()).is_ok());
}

#[test]
fn prune() {
    let mut font = test_font();
    let before = font.values().len();
    font.prune_for_n_intensities(256);
    assert!(font.values().len() <= before);

    let mut font = test_font();
    font.prune_for_n_intensities(100);
    assert!(font.values().len() <= before);
}

#[test]
fn pruning_keeps_lookups_and_order() {
    let full = test_font();
    for n in [1usize, 2, 7, 100, 256] {
        let mut pruned = full.clone();
        pruned.prune_for_n_intensities(n);
        assert!(pruned.values().len() <= full.values().len());
        assert!(pruned.values().windows(2).all(|w| w[0].val <= w[1].val));
        for k in 0..n {
            let c = pruned.pixel(query(k, n));
            assert_eq!(c, full.pixel(query(k, n)));
            assert!(pruned.values().iter().any(|e| e.chr == c));
        }
        assert_eq!(pruned.geometry(), full.geometry());
        assert_eq!(pruned.fudge_divisor(), full.fudge_divisor());
    }
}

#[test]
fn pruning_twice_is_pruning_once() {
    let mut once = test_font();
    once.prune_for_n_intensities(16);
    let mut twice = once.clone();
    twice.prune_for_n_intensities(16);
    assert_eq!(once.values(), twice.values());
    assert!(once.values().len() < 95);
}

#[test]
fn rejected_and_accepted_cover_the_alphabet() {
    let chars = vec!['a', 'ᄀ', ' ', '\t', 'b', 'a'];
    let probes: Vec<GlyphProbe> = chars.iter().copied().map(latin_probe).collect();
    let (fd, bad) = match FontData::from_glyphs(&probes, REPLACEMENT_GLYPH, HEIGHT) {
        Ok(Err(x)) => x,
        other => panic!("unexpected {:?}", other),
    };
    assert_eq!(bad, vec!['ᄀ', '\t']);
    let mut kept: Vec<char> = fd.values().iter().map(|e| e.chr).collect();
    kept.sort();
    assert_eq!(kept, vec![' ', 'a', 'a', 'b']);
}

#[test]
fn space_without_outline_is_kept_other_blanks_are_not() {
    let probes = vec![
        GlyphProbe { chr: ' ', glyph: 3, coverage: None, advance: 64 },
        GlyphProbe { chr: '\u{a0}', glyph: 4, coverage: None, advance: 64 },
        GlyphProbe { chr: 'x', glyph: 5, coverage: Some(9), advance: 64 },
    ];
    let (fd, bad) = FontData::from_glyphs(&probes, 0, 64).unwrap().unwrap_err();
    assert_eq!(bad, vec!['\u{a0}']);
    assert_eq!(fd.values()[0], MapEntry { chr: ' ', val: 0 });
}

#[test]
fn space_only_alphabet_has_no_useable_glyphs() {
    let probes = vec![latin_probe(' ')];
    assert!(matches!(
        FontData::from_glyphs(&probes, REPLACEMENT_GLYPH, HEIGHT),
        Err(Error::NoUseableGlyphs)
    ));
}

#[test]
fn empty_alphabet_and_uncovered_alphabet_have_no_useable_glyphs() {
    assert!(matches!(FontData::from_glyphs(&[], 0, HEIGHT), Err(Error::NoUseableGlyphs)));
    let probes = vec![latin_probe('ᄀ'), latin_probe('ᄁ')];
    assert!(matches!(
        FontData::from_glyphs(&probes, REPLACEMENT_GLYPH, HEIGHT),
        Err(Error::NoUseableGlyphs)
    ));
}

#[test]
fn zero_advance_or_zero_coverage_has_no_useable_glyphs() {
    let flat = vec![
        GlyphProbe { chr: 'a', glyph: 1, coverage: Some(3), advance: 0 },
        GlyphProbe { chr: 'b', glyph: 2, coverage: Some(4), advance: 0 },
    ];
    assert!(matches!(FontData::from_glyphs(&flat, 0, 64), Err(Error::NoUseableGlyphs)));
    let blank = vec![
        GlyphProbe { chr: ' ', glyph: 1, coverage: None, advance: 64 },
        GlyphProbe { chr: 'b', glyph: 2, coverage: Some(0), advance: 64 },
    ];
    assert!(matches!(FontData::from_glyphs(&blank, 0, 64), Err(Error::NoUseableGlyphs)));
}

#[test]
fn zero_line_height_is_invalid_font_data() {
    let probes: Vec<GlyphProbe> = printable_ascii().into_iter().map(latin_probe).collect();
    assert!(matches!(
        FontData::from_glyphs(&probes, REPLACEMENT_GLYPH, 0),
        Err(Error::InvalidFontData)
    ));
}

#[test]
fn from_parts_checks_the_invariant() {
    let ok = vec![MapEntry { chr: 'a', val: 1 }, MapEntry { chr: 'b', val: 2 }];
    assert!(FontData::from_parts(ok.clone(), 1, 1, 1).is_some());
    assert!(FontData::from_parts(Vec::new(), 1, 1, 1).is_none());
    assert!(FontData::from_parts(ok.clone(), 0, 1, 1).is_none());
    assert!(FontData::from_parts(ok.clone(), 1, 0, 1).is_none());
    assert!(FontData::from_parts(ok.clone(), 1, 1, 0).is_none());
    assert!(FontData::from_parts(ok.clone(), 1, 1, u32::MAX as usize).is_some());
    assert!(FontData::from_parts(ok, 1, 1, u32::MAX as usize + 1).is_none());
    let unsorted = vec![MapEntry { chr: 'a', val: 2 }, MapEntry { chr: 'b', val: 1 }];
    assert!(FontData::from_parts(unsorted, 1, 1, 1).is_none());
    let too_big = vec![MapEntry { chr: 'a', val: FULL + 1 }];
    assert!(FontData::from_parts(too_big, 1, 1, 1).is_none());
}

#[test]
fn error_messages() {
    assert_eq!(
        Error::InvalidFontData.message(),
        "Supplied buffer does not contain valid or recognizable font data."
    );
    assert_eq!(Error::NoUseableGlyphs.message(), "FontData object contains no useable glyphs.");
    assert_eq!(Error::IOError("disk".to_string()).message(), "I/O error: disk");
}

fn gradient(width: u32, height: u32) -> Vec<u16> {
    let mut px = Vec::new();
    for y in 0..height {
        for x in 0..width {
            px.push(((x * 65535) / width.max(1)) as u16 ^ (y as u16 & 1));
        }
    }
    px
}

fn two_entry_font(w: u32, h: u32) -> FontData {
    let values = vec![MapEntry { chr: '.', val: 0 }, MapEntry { chr: '#', val: FULL }];
    FontData::from_parts(values, w, h, 2).unwrap()
}

#[test]
fn rendered_lines_match_grid() {
    let font = two_entry_font(7 * 64 + 13, 14 * 64);
    let img = Image::from_luma(100, 45, gradient(100, 45)).unwrap();
    assert_eq!(grid_size(&img, &font), (13, 3));
    let mut out: Vec<char> = Vec::new();
    ascii_art::render::write(&img, &font, &mut out);
    let text: String = out.iter().collect();
    let lines: Vec<&str> = text.split_terminator('\n').collect();
    assert_eq!(lines.len(), 3);
    assert!(lines.iter().all(|l| l.chars().count() == 13));
    assert!(text.ends_with('\n'));
}

#[test]
fn rendering_a_flat_image_repeats_one_character() {
    let font = two_entry_font(64, 64);
    let img = Image::from_luma(3, 2, vec![FULL as u16; 6]).unwrap();
    let mut out: Vec<char> = Vec::new();
    ascii_art::render::write(&img, &font, &mut out);
    assert_eq!(out.iter().collect::<String>(), "###\n###\n");
    let mut inv: Vec<char> = Vec::new();
    ascii_art::render::write_inverted(&img, &font, &mut inv);
    assert_eq!(inv.iter().collect::<String>(), "...\n...\n");
}

#[test]
fn image_smaller_than_a_cell_renders_nothing() {
    let font = two_entry_font(10 * 64, 10 * 64);
    let img = Image::from_luma(9, 30, gradient(9, 30)).unwrap();
    let mut out: Vec<char> = vec!['x'];
    ascii_art::render::write(&img, &font, &mut out);
    assert_eq!(out, vec!['x']);
}

#[test]
fn from_luma_checks_sample_count() {
    assert!(Image::from_luma(2, 2, vec![0; 4]).is_some());
    assert!(Image::from_luma(2, 2, vec![0; 3]).is_none());
    assert_eq!(Image::from_luma(2, 3, vec![0; 6]).unwrap().geometry(), (2, 3));
}

fn png_bytes(width: u32, height: u32) -> Vec<u8> {
    let mut buf = image::GrayImage::new(width, height);
    for (x, y, p) in buf.enumerate_pixels_mut() {
        *p = image::Luma([((x * 255) / width.max(1)) as u8 ^ (y as u8 & 3)]);
    }
    let mut bytes: Vec<u8> = Vec::new();
    image::DynamicImage::ImageLuma8(buf)
        .write_to(&mut std::io::Cursor::new(&mut bytes), ImageFormat::Png)
        .unwrap();
    bytes
}

#[test]
fn load_image() {
    let bytes = png_bytes(40, 20);
    let img = Image::auto(&bytes).unwrap();
    assert_eq!(img.geometry(), (40, 20));
    let e = Image::with_format(&bytes, ImageFormat::Jpeg);
    assert!(matches!(e, Err(Error::IOError(_))));
    let same = Image::with_format(&bytes, ImageFormat::Png).unwrap();
    assert_eq!(same.geometry(), (40, 20));
    assert!(matches!(Image::auto(b"not an image"), Err(Error::IOError(_))));
}

#[test]
fn to_writer() {
    let img = Image::auto(&png_bytes(160, 96)).unwrap();
    let font = test_font();
    let (w, h) = font.geometry();
    let mut v: Vec<char> = Vec::new();
    ascii_art::render::write(&img, &font, &mut v);
    let text: String = v.iter().collect();
    let lines: Vec<&str> = text.split_terminator('\n').collect();
    assert_eq!(lines.len(), (96 * 64 / h) as usize);
    assert!(lines.iter().all(|l| l.chars().count() == (160 * 64 / w) as usize));
    assert!(lines.iter().any(|l| l.chars().any(|c| c != ' ')));
}

#[test]
fn image_bytes_are_not_font_data() {
    let png = png_bytes(8, 8);
    assert!(matches!(open_font(&png), Err(Error::InvalidFontData)));
    assert!(matches!(open_font(&[]), Err(Error::InvalidFontData)));
}
