use whitespace_rs::spacer::{read_bol_info, write_new_bols, BeginningOfLine, BolInfo};

#[test]
fn spacer_tests_test_read_bol_info() {
    let bol_info = read_bol_info("  \txyz\n".as_bytes()).unwrap();

    assert_eq!(
        bol_info,
        BolInfo {
            none: 0,
            spaces: 0,
            tabs: 0,
            mixed: 1,
        }
    );
}

#[test]
fn spacer_tests_test_write_new_file_round_down() {
    let input = " a\n  x\n    \n".as_bytes();
    let mut output = Vec::new();
    let bol_info = write_new_bols(
        input,
        &mut output,
        BeginningOfLine::Tabs { tab_width: 2, round_down: true },
    )
    .unwrap();

    assert_eq!(
        bol_info,
        BolInfo {
            none: 1,
            spaces: 0,
            tabs: 2,
            mixed: 0
        }
    );
    assert_eq!(String::from_utf8(output).unwrap(), "a\n\tx\n\t\t\n");
}

#[test]
fn spacer_tests_test_write_new_file() {
    let input = " a\n   x\n    \n".as_bytes();
    let mut output = Vec::new();
    let bol_info = write_new_bols(
        input,
        &mut output,
        BeginningOfLine::Tabs { tab_width: 2, round_down: false },
    )
    .unwrap();

    assert_eq!(
        bol_info,
        BolInfo {
            none: 0,
            spaces: 1,
            tabs: 1,
            mixed: 1
        }
    );
    assert_eq!(String::from_utf8(output).unwrap(), " a\n\t x\n\t\t\n");
}

#[test]
fn spacer_tests_test_write_new_file_tabs() {
    let input = "\ta\n \t x\n\t\t\n".as_bytes();
    let mut output = Vec::new();
    let bol_info =
        write_new_bols(input, &mut output, BeginningOfLine::Spaces { tab_width: 2 }).unwrap();

    assert_eq!(
        bol_info,
        BolInfo {
            none: 0,
            spaces: 3,
            tabs: 0,
            mixed: 0
        }
    );
    assert_eq!(String::from_utf8(output).unwrap(), "  a\n   x\n    \n");
}
