use ascii_art::codec::{
    compress, decode, decompress, encode, find_color, flatten, step, wrap, DecodeState,
    PaletteError, Step,
};
use ascii_art::lookup::Positions;
use ascii_art::table::{code_chars, symbol_positions, CODE_COUNT};
use ascii_art::text::{chars_of, string_of, string_of_range};

const CODES: &str =
    " `1234567890-=~!@#$%^&*()_+qwertyuiop[]QWERTYUIOP{}|asdfghjkl;'ASDFGHJKL:zxcvbnm,./ZXCVBNM<>?";

fn joined(lines: &[String]) -> String {
    lines.concat()
}

#[test]
fn code_table_has_its_symbols_in_order() {
    let table = code_chars();
    assert_eq!(table.len(), CODE_COUNT);
    assert_eq!(table.len(), 93);
    assert_eq!(table.iter().collect::<String>(), CODES);
    assert_eq!(table[0], ' ');
    assert_eq!(table[1], '`');
    assert_eq!(table[92], '?');
}

#[test]
fn code_table_symbols_are_distinct() {
    let table = code_chars();
    let symbols = symbol_positions();
    for (i, c) in table.iter().enumerate() {
        assert_eq!(symbols.get(*c), Some(i));
    }
}

#[test]
fn symbol_positions_miss_other_characters() {
    let symbols = symbol_positions();
    assert_eq!(symbols.get('\\'), None);
    assert_eq!(symbols.get('"'), None);
    assert_eq!(symbols.get('█'), None);
    assert_eq!(symbols.get('q'), Some(27));
}

#[test]
fn positions_keep_the_last_place_of_a_character() {
    let table = Positions::new(&chars_of("abcab"));
    assert_eq!(table.get('a'), Some(3));
    assert_eq!(table.get('b'), Some(4));
    assert_eq!(table.get('c'), Some(2));
    assert_eq!(table.get('d'), None);
    assert_eq!(Positions::new(&[]).get('a'), None);
}

#[test]
fn chars_and_strings_convert_both_ways() {
    assert_eq!(chars_of(" ░▒▓█"), vec![' ', '░', '▒', '▓', '█']);
    assert_eq!(chars_of(""), Vec::<char>::new());
    assert_eq!(string_of(&['a', '█', 'c']), "a█c");
    assert_eq!(string_of(&[]), "");
    assert_eq!(string_of_range(&['a', 'b', 'c', 'd'], 1, 3), "bc");
    assert_eq!(string_of_range(&['a', 'b', 'c', 'd'], 2, 2), "");
}

#[test]
fn find_color_takes_last_position_and_falls_back_to_zero() {
    let palette = Positions::new(&chars_of(" .#."));
    assert_eq!(find_color(&palette, ' '), 0);
    assert_eq!(find_color(&palette, '#'), 2);
    assert_eq!(find_color(&palette, '.'), 3);
    assert_eq!(find_color(&palette, 'x'), 0);
    assert_eq!(find_color(&Positions::new(&[]), 'x'), 0);
}

#[test]
fn two_runs_of_three() {
    assert_eq!(compress("   ###", " #"), Ok(" 2`2".to_string()));
    let lines = decompress(" 2`2", 6, " #").unwrap();
    assert_eq!(lines, vec!["   ###".to_string()]);
}

#[test]
fn empty_data_has_no_lines() {
    assert_eq!(decompress("", 1, " #"), Ok(Vec::<String>::new()));
    assert_eq!(decompress("", 160, " ░▒▓█"), Ok(Vec::<String>::new()));
    assert_eq!(decompress("", 7, ""), Ok(Vec::<String>::new()));
    assert_eq!(decode(&[], &[]), Ok(Vec::<char>::new()));
}

#[test]
fn empty_text_has_no_symbols() {
    assert_eq!(compress("", " #"), Ok(String::new()));
    assert_eq!(compress("\n\n", " #"), Ok(String::new()));
    assert_eq!(compress("", ""), Ok(String::new()));
}

#[test]
fn single_character_is_one_symbol() {
    assert_eq!(compress("#", " #"), Ok("`".to_string()));
    assert_eq!(compress(" # ", " #"), Ok(" ` ".to_string()));
    assert_eq!(compress("  #  ", " #"), Ok(" 1` 1".to_string()));
}

#[test]
fn run_of_two_uses_first_length_symbol() {
    assert_eq!(compress("##", " #"), Ok("`1".to_string()));
    assert_eq!(compress("▒▒", " ░▒▓█"), Ok("14".to_string()));
}

#[test]
fn run_at_the_limit_is_one_pair() {
    let text = "#".repeat(92);
    assert_eq!(compress(&text, " #"), Ok("`?".to_string()));
    assert_eq!(decompress("`?", 92, " #"), Ok(vec![text]));
}

#[test]
fn run_one_over_the_limit_is_a_pair_and_a_symbol() {
    let text = "#".repeat(93);
    assert_eq!(compress(&text, " #"), Ok("`?`".to_string()));
    assert_eq!(decompress("`?`", 93, " #"), Ok(vec![text]));
}

#[test]
fn long_run_is_split_into_full_pairs() {
    let text = " ".repeat(92 * 2 + 5);
    assert_eq!(compress(&text, " #"), Ok(" ? ? 4".to_string()));
    let lines = decompress(" ? ? 4", 1000, " #").unwrap();
    assert_eq!(lines, vec![text]);
}

#[test]
fn limit_depends_on_palette_size() {
    let text = "█".repeat(90);
    assert_eq!(compress(&text, " ░▒▓█"), Ok("3?3".to_string()));
    let text = "█".repeat(89);
    assert_eq!(compress(&text, " ░▒▓█"), Ok("3?".to_string()));
}

#[test]
fn full_palette_leaves_no_length_symbols() {
    assert_eq!(compress("aaa", CODES), Ok("aaa".to_string()));
    assert_eq!(compress("?? `", CODES), Ok("?? `".to_string()));
    assert_eq!(decompress("aa?", 3, CODES), Ok(vec!["aa?".to_string()]));
}

#[test]
fn palette_larger_than_the_table_is_refused() {
    let colors = format!("{}\\", CODES);
    assert_eq!(compress("aaa", &colors), Err(PaletteError::TooLarge));
    assert_eq!(compress("", &colors), Err(PaletteError::TooLarge));
    assert_eq!(
        encode(&['a'], &chars_of(&colors)),
        Err(PaletteError::TooLarge)
    );
}

#[test]
fn palette_larger_than_the_table_still_decodes() {
    let colors = format!("{}\\", CODES);
    assert_eq!(decompress("a?x", 2, &colors), Ok(vec!["a?".to_string(), "x".to_string()]));
}

#[test]
fn empty_palette_is_refused() {
    assert_eq!(compress("a", ""), Err(PaletteError::Empty));
    assert_eq!(decompress("a", 3, ""), Err(PaletteError::Empty));
    assert_eq!(encode(&['a'], &[]), Err(PaletteError::Empty));
    assert_eq!(decode(&['a'], &[]), Err(PaletteError::Empty));
}

#[test]
fn error_messages_differ() {
    assert_eq!(PaletteError::Empty.message(), "the palette is empty");
    assert_eq!(
        PaletteError::TooLarge.message(),
        "the palette has more characters than the code table"
    );
}

#[test]
fn unknown_character_is_written_as_position_zero() {
    assert_eq!(compress("x", " #"), Ok(" ".to_string()));
    assert_eq!(compress("xxx#", " #"), Ok(" 2`".to_string()));
    assert_eq!(compress("xy", " #"), Ok("  ".to_string()));
}

#[test]
fn unknown_symbol_is_read_as_position_zero() {
    assert_eq!(decompress("\\", 5, " #"), Ok(vec![" ".to_string()]));
    assert_eq!(decompress("`\\`", 5, " #"), Ok(vec!["# #".to_string()]));
}

#[test]
fn length_symbol_in_first_place_is_read_as_position_zero() {
    assert_eq!(decompress("2", 5, " #"), Ok(vec![" ".to_string()]));
    assert_eq!(decompress(" 22", 5, " #"), Ok(vec!["    ".to_string()]));
    assert_eq!(decompress("`12", 5, " #"), Ok(vec!["## ".to_string()]));
}

#[test]
fn trailing_position_symbol_is_a_run_of_one() {
    assert_eq!(decompress(" 1`", 5, " #"), Ok(vec!["  #".to_string()]));
}

#[test]
fn length_symbol_adds_its_number_plus_two() {
    assert_eq!(decode(&['`', '1'], &[' ', '#']), Ok(vec!['#'; 2]));
    assert_eq!(decode(&['`', '2'], &[' ', '#']), Ok(vec!['#'; 3]));
    assert_eq!(decode(&['`', '?'], &[' ', '#']), Ok(vec!['#'; 92]));
    assert_eq!(decode(&['3', '4'], &chars_of(" ░▒▓█")), Ok(vec!['█'; 2]));
}

#[test]
fn lines_are_cut_at_the_width() {
    let flat = chars_of("abcdefg");
    assert_eq!(wrap(&flat, 3), vec!["abc", "def", "g"]);
    assert_eq!(wrap(&flat, 7), vec!["abcdefg"]);
    assert_eq!(wrap(&flat, 8), vec!["abcdefg"]);
    assert_eq!(wrap(&flat, 1).len(), 7);
    assert_eq!(wrap(&chars_of("abcdef"), 3), vec!["abc", "def"]);
    assert_eq!(wrap(&[], 3), Vec::<String>::new());
}

#[test]
fn decompress_wraps_lines() {
    let lines = decompress(" 2`2", 4, " #").unwrap();
    assert_eq!(lines, vec!["   #".to_string(), "##".to_string()]);
    assert_eq!(joined(&lines), "   ###");
}

#[test]
fn line_breaks_are_dropped() {
    assert_eq!(flatten(&chars_of("ab\ncd\r\ne\rf")), chars_of("abcde\rf"));
    assert_eq!(flatten(&chars_of("a\r\r\nb\n")), chars_of("a\rb"));
    assert_eq!(flatten(&chars_of("\n\r\n\n")), Vec::<char>::new());
    assert_eq!(flatten(&chars_of("a\r")), chars_of("a\r"));
    assert_eq!(flatten(&[]), Vec::<char>::new());
}

#[test]
fn runs_go_on_over_line_breaks() {
    assert_eq!(compress("  \n  \n##\n", " #"), Ok(" 3`1".to_string()));
    assert_eq!(compress("  \r\n ##", " #"), Ok(" 2`1".to_string()));
}

#[test]
fn round_trip_over_a_palette() {
    let colors = " ░▒▓█";
    let text = "  ░░░▒▓▓▓▓▓█ █ ░▒▒▒▒▒▒▒▒▒▒▒▒▒▒▒▒▒▒▒▒▒▒▒▒▒▒▒▒▒▒▒▒▒▒▒▒▒▒▒▒▒▒▒▒▒▒▒▒▒▒▒▒▒▒▒▒▒▒▒▒▒▒▒▒▒▒▒▒▒▒▒▒▒▒▒▒▒▒▒▒▒▒▒▒▒▒▒▒▒▒▒▒▒▒▒▒▒▒▒▒▒▒▒▒▒▓";
    let compact = compress(text, colors).unwrap();
    let width = text.chars().count() as u32;
    assert_eq!(decompress(&compact, width, colors), Ok(vec![text.to_string()]));
    assert_eq!(compress(&joined(&decompress(&compact, 7, colors).unwrap()), colors), Ok(compact));
}

#[test]
fn round_trip_with_every_palette_size() {
    let table: Vec<char> = CODES.chars().collect();
    for n in 1..=93usize {
        let palette: Vec<char> = (0..n).map(|i| char::from_u32(0x2500 + i as u32).unwrap()).collect();
        let mut text: Vec<char> = Vec::new();
        for (i, c) in palette.iter().enumerate() {
            for _ in 0..(i * 7 % 101 + 1) {
                text.push(*c);
            }
        }
        let symbols = encode(&text, &palette).unwrap();
        assert!(symbols.iter().all(|c| table.contains(c)));
        assert_eq!(decode(&symbols, &palette), Ok(text));
    }
}

#[test]
fn same_input_gives_same_output() {
    assert_eq!(compress("  ## #", " #"), compress("  ## #", " #"));
    assert_eq!(decompress(" 1`1 `", 3, " #"), decompress(" 1`1 `", 3, " #"));
}

#[test]
fn reader_opens_a_run_on_any_symbol() {
    let palette = chars_of(" #");
    let table = symbol_positions();
    let start = DecodeState::ExpectIndexSymbol;
    assert_eq!(
        step(start, Some('`'), &palette, &table),
        Step { next: DecodeState::HaveCharAwaitingOptionalValue('#'), consumed: true, emit: 0 }
    );
    assert_eq!(
        step(start, Some('7'), &palette, &table),
        Step { next: DecodeState::HaveCharAwaitingOptionalValue(' '), consumed: true, emit: 0 }
    );
    assert_eq!(
        step(start, Some('\\'), &palette, &table),
        Step { next: DecodeState::HaveCharAwaitingOptionalValue(' '), consumed: true, emit: 0 }
    );
}

#[test]
fn reader_rests_at_the_end_of_data() {
    let palette = chars_of(" #");
    let table = symbol_positions();
    assert_eq!(
        step(DecodeState::ExpectIndexSymbol, None, &palette, &table),
        Step { next: DecodeState::ExpectIndexSymbol, consumed: false, emit: 0 }
    );
}

#[test]
fn reader_closes_a_run_with_or_without_a_length() {
    let palette = chars_of(" #");
    let table = symbol_positions();
    let open = DecodeState::HaveCharAwaitingOptionalValue('#');
    assert_eq!(
        step(open, Some('1'), &palette, &table),
        Step { next: DecodeState::ExpectIndexSymbol, consumed: true, emit: 2 }
    );
    assert_eq!(
        step(open, Some('?'), &palette, &table),
        Step { next: DecodeState::ExpectIndexSymbol, consumed: true, emit: 92 }
    );
    assert_eq!(
        step(open, Some('`'), &palette, &table),
        Step { next: DecodeState::ExpectIndexSymbol, consumed: false, emit: 1 }
    );
    assert_eq!(
        step(open, Some('\\'), &palette, &table),
        Step { next: DecodeState::ExpectIndexSymbol, consumed: false, emit: 1 }
    );
    assert_eq!(
        step(open, None, &palette, &table),
        Step { next: DecodeState::ExpectIndexSymbol, consumed: false, emit: 1 }
    );
}
