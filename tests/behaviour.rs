use whitespace_rs::ender::{
    count_eols, convert_eols, read_eol_info, write_new_eols, EndOfLine, EolInfo,
};
use whitespace_rs::spacer::{
    convert_bols, count_bols, read_bol_info, write_new_bols, BeginningOfLine, BolInfo,
};
use whitespace_rs::utf8::{decode, push_utf8, DecodeError};

fn eols(cr: usize, lf: usize, crlf: usize) -> EolInfo {
    EolInfo { cr, lf, crlf, num_lines: 1 + cr + lf + crlf }
}

fn rewrite_eols(input: &str, new_eol: EndOfLine) -> (usize, String) {
    let mut output = Vec::new();
    let n = write_new_eols(input.as_bytes(), &mut output, new_eol).unwrap();
    (n, String::from_utf8(output).unwrap())
}

fn rewrite_bols(input: &str, new_bol: BeginningOfLine) -> (BolInfo, String) {
    let mut output = Vec::new();
    let info = write_new_bols(input.as_bytes(), &mut output, new_bol).unwrap();
    (info, String::from_utf8(output).unwrap())
}

#[test]
fn line_count_is_one_more_than_endings() {
    for text in ["", "abc", "a\rb\nc\r\nd", "\r\r\n\n\r", "x\n\n\n"] {
        let info = read_eol_info(text.as_bytes()).unwrap();
        assert_eq!(info.num_lines, 1 + info.cr + info.lf + info.crlf);
    }
}

#[test]
fn empty_input_gives_initial_statistics() {
    assert_eq!(read_eol_info(b"").unwrap(), eols(0, 0, 0));
    assert_eq!(read_eol_info(b"").unwrap().num_lines, 1);
    assert_eq!(
        read_bol_info(b"").unwrap(),
        BolInfo { none: 0, spaces: 0, tabs: 0, mixed: 0 }
    );
    assert_eq!(rewrite_eols("", EndOfLine::CrLf), (1, String::new()));
    let (info, out) = rewrite_bols("", BeginningOfLine::Spaces { tab_width: 4 });
    assert_eq!(info, BolInfo { none: 0, spaces: 0, tabs: 0, mixed: 0 });
    assert_eq!(out, "");
}

#[test]
fn lone_cr_at_end_is_a_cr_ending() {
    assert_eq!(read_eol_info(b"abc\r").unwrap(), eols(1, 0, 0));
    assert_eq!(read_eol_info(b"\r\r\n").unwrap(), eols(1, 0, 1));
    assert_eq!(read_eol_info(b"\n\r").unwrap(), eols(1, 1, 0));
}

#[test]
fn rewrite_to_each_kind() {
    let text = "a\rb\nc\r\nd";
    assert_eq!(rewrite_eols(text, EndOfLine::Cr), (4, "a\rb\rc\rd".to_string()));
    assert_eq!(rewrite_eols(text, EndOfLine::Lf), (4, "a\nb\nc\nd".to_string()));
    assert_eq!(rewrite_eols(text, EndOfLine::CrLf), (4, "a\r\nb\r\nc\r\nd".to_string()));
}

#[test]
fn rewrite_twice_to_same_kind_changes_nothing() {
    let text = "abc\nxyz\r\n\r\n123\r\r\r";
    for kind in [EndOfLine::Cr, EndOfLine::Lf, EndOfLine::CrLf] {
        let (n1, once) = rewrite_eols(text, kind);
        let (n2, twice) = rewrite_eols(&once, kind);
        assert_eq!(once, twice);
        assert_eq!(n1, n2);
        assert_eq!(n1, 7);
    }
}

#[test]
fn common_eol_ties_favour_lf_then_cr_wins_on_majority() {
    assert_eq!(eols(0, 3, 3).get_common_eol(), EndOfLine::Lf);
    assert_eq!(eols(0, 3, 4).get_common_eol(), EndOfLine::CrLf);
    assert_eq!(eols(2, 1, 0).get_common_eol(), EndOfLine::Cr);
    assert_eq!(eols(3, 1, 3).get_common_eol(), EndOfLine::CrLf);
    assert_eq!(eols(3, 1, 4).get_common_eol(), EndOfLine::CrLf);
    assert_eq!(eols(5, 1, 4).get_common_eol(), EndOfLine::Cr);
    assert_eq!(eols(0, 0, 0).get_common_eol(), EndOfLine::Lf);
}

#[test]
fn num_endings_counts_kinds_present() {
    assert_eq!(eols(0, 0, 0).num_endings(), 0);
    assert_eq!(eols(0, 7, 0).num_endings(), 1);
    assert_eq!(eols(2, 0, 5).num_endings(), 2);
    assert_eq!(eols(1, 1, 1).num_endings(), 3);
}

#[test]
fn non_ascii_text_is_copied_unchanged() {
    let text = "é\r\n→x\r𝄞";
    let (n, out) = rewrite_eols(text, EndOfLine::Lf);
    assert_eq!(n, 3);
    assert_eq!(out, "é\n→x\n𝄞");
    assert_eq!(read_eol_info(text.as_bytes()).unwrap(), eols(1, 0, 1));
    let (_, out) = rewrite_bols("\t\u{a0}é\n", BeginningOfLine::Spaces { tab_width: 3 });
    assert_eq!(out, "   \u{a0}é\n");
}

#[test]
fn decode_reads_characters() {
    assert_eq!(decode("a€𝄞".as_bytes()).unwrap(), vec!['a', '€', '𝄞']);
    assert_eq!(decode(b"").unwrap(), Vec::<char>::new());
    assert_eq!(decode(&[0xffu8]), Err(DecodeError));
}

#[test]
fn push_utf8_encodes_each_width() {
    for c in ['a', '\u{7f}', '\u{80}', 'é', '\u{7ff}', '\u{800}', '€', '\u{ffff}', '\u{10000}', '𝄞', '\u{10ffff}'] {
        let mut out = vec![1u8];
        push_utf8(&mut out, c);
        let mut buf = [0u8; 4];
        let mut expected = vec![1u8];
        expected.extend_from_slice(c.encode_utf8(&mut buf).as_bytes());
        assert_eq!(out, expected);
    }
}

#[test]
fn invalid_utf8_is_a_decode_error() {
    let bad: &[u8] = &[b'a', b'\n', 0xc3];
    assert_eq!(read_eol_info(bad), Err(DecodeError));
    assert_eq!(read_bol_info(bad), Err(DecodeError));
    let mut output = b"kept".to_vec();
    assert_eq!(write_new_eols(bad, &mut output, EndOfLine::Lf), Err(DecodeError));
    assert_eq!(
        write_new_bols(&[0xe2, 0x82], &mut output, BeginningOfLine::Spaces { tab_width: 2 }),
        Err(DecodeError)
    );
    assert_eq!(output, b"kept".to_vec());
    assert_eq!(read_eol_info(&[0xed, 0xa0, 0x80]), Err(DecodeError));
}

#[test]
fn output_is_appended() {
    let mut output = b">".to_vec();
    let n = write_new_eols(b"a\r\n", &mut output, EndOfLine::Cr).unwrap();
    assert_eq!(n, 2);
    assert_eq!(output, b">a\r".to_vec());
}

#[test]
fn read_bol_info_four_categories() {
    assert_eq!(
        read_bol_info("  \txyz\n".as_bytes()).unwrap(),
        BolInfo { none: 0, spaces: 0, tabs: 0, mixed: 1 }
    );
    assert_eq!(
        read_bol_info(" \t a\n\t b\n  c\n\td\ne".as_bytes()).unwrap(),
        BolInfo { none: 1, spaces: 1, tabs: 1, mixed: 2 }
    );
}

#[test]
fn trailing_run_at_end_of_text_is_not_counted_or_written() {
    assert_eq!(
        read_bol_info("a\n   ".as_bytes()).unwrap(),
        BolInfo { none: 1, spaces: 0, tabs: 0, mixed: 0 }
    );
    let (info, out) = rewrite_bols("a\n   ", BeginningOfLine::Spaces { tab_width: 2 });
    assert_eq!(info, BolInfo { none: 1, spaces: 0, tabs: 0, mixed: 0 });
    assert_eq!(out, "a\n");
}

#[test]
fn newline_ending_a_run_leaves_the_next_line_alone() {
    assert_eq!(
        read_bol_info("\n\tb\n c\n".as_bytes()).unwrap(),
        BolInfo { none: 1, spaces: 1, tabs: 0, mixed: 0 }
    );
    let (info, out) = rewrite_bols("  \n\tb\n\tc\n", BeginningOfLine::Spaces { tab_width: 4 });
    assert_eq!(out, "  \n\tb\n    c\n");
    assert_eq!(info, BolInfo { none: 0, spaces: 2, tabs: 0, mixed: 0 });
}

#[test]
fn common_bol_prefers_spaces_on_tie() {
    let info = BolInfo { none: 4, spaces: 2, tabs: 2, mixed: 9 };
    assert_eq!(info.get_common_bol(4, true), BeginningOfLine::Spaces { tab_width: 4 });
    let info = BolInfo { none: 0, spaces: 2, tabs: 3, mixed: 0 };
    assert_eq!(
        info.get_common_bol(8, false),
        BeginningOfLine::Tabs { tab_width: 8, round_down: false }
    );
}

#[test]
fn untabify_goes_to_next_tab_stop() {
    let (info, out) = rewrite_bols(" \t  \tx\n", BeginningOfLine::Spaces { tab_width: 4 });
    assert_eq!(out, "        x\n");
    assert_eq!(info, BolInfo { none: 0, spaces: 1, tabs: 0, mixed: 0 });
    let (_, out) = rewrite_bols("   \tx\n", BeginningOfLine::Spaces { tab_width: 3 });
    assert_eq!(out, "      x\n");
}

#[test]
fn tabify_keeps_or_drops_remainder() {
    let (info, out) = rewrite_bols(
        "     x\n",
        BeginningOfLine::Tabs { tab_width: 2, round_down: false },
    );
    assert_eq!(out, "\t\t x\n");
    assert_eq!(info, BolInfo { none: 0, spaces: 0, tabs: 0, mixed: 1 });
    let (info, out) =
        rewrite_bols("     x\n", BeginningOfLine::Tabs { tab_width: 2, round_down: true });
    assert_eq!(out, "\t\tx\n");
    assert_eq!(info, BolInfo { none: 0, spaces: 0, tabs: 1, mixed: 0 });
    let (info, out) =
        rewrite_bols(" x\n", BeginningOfLine::Tabs { tab_width: 4, round_down: false });
    assert_eq!(out, " x\n");
    assert_eq!(info, BolInfo { none: 0, spaces: 1, tabs: 0, mixed: 0 });
}

#[test]
fn zero_tab_width_is_taken_as_one() {
    let (_, out) = rewrite_bols("\t \tx\n", BeginningOfLine::Spaces { tab_width: 0 });
    assert_eq!(out, "   x\n");
    let (info, out) =
        rewrite_bols("  x\n", BeginningOfLine::Tabs { tab_width: 0, round_down: false });
    assert_eq!(out, "\t\tx\n");
    assert_eq!(info, BolInfo { none: 0, spaces: 0, tabs: 1, mixed: 0 });
}

#[test]
fn spaces_tabs_spaces_round_trip() {
    let text = "    a\n        b\nc\n    \n";
    for round_down in [false, true] {
        let (_, tabbed) = rewrite_bols(text, BeginningOfLine::Tabs { tab_width: 4, round_down });
        assert_eq!(tabbed, "\ta\n\t\tb\nc\n\t\n");
        let (_, back) = rewrite_bols(&tabbed, BeginningOfLine::Spaces { tab_width: 4 });
        assert_eq!(back, text);
    }
}

#[test]
fn char_level_functions_match_byte_level() {
    let chars: Vec<char> = "\tx\r\n  y\rz".chars().collect();
    assert_eq!(count_eols(&chars), eols(1, 0, 1));
    let mut out = Vec::new();
    assert_eq!(convert_eols(&chars, &mut out, EndOfLine::Lf), 3);
    assert_eq!(out, b"\tx\n  y\nz".to_vec());
    assert_eq!(count_bols(&chars), BolInfo { none: 0, spaces: 1, tabs: 1, mixed: 0 });
    let mut out = Vec::new();
    let info = convert_bols(&chars, &mut out, BeginningOfLine::Spaces { tab_width: 2 });
    assert_eq!(info, BolInfo { none: 0, spaces: 2, tabs: 0, mixed: 0 });
    assert_eq!(out, "  x\r\n  y\rz".as_bytes().to_vec());
}
