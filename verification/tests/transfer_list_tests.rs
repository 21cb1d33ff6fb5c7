use sdat2img_rs::Command;
use sdat2img_rs::Error;
use sdat2img_rs::TransferList;

#[test]
fn parse_version_one_manifest() {
    let tl = TransferList::parse(b"1\n10\nnew 2,0,1\n").unwrap();
    assert_eq!(tl.version(), 1);
    assert_eq!(tl.new_blocks(), 10);
    assert_eq!(tl.commands().len(), 1);
    match &tl.commands()[0] {
        Command::New(rs) => {
            assert_eq!(rs.pairs().len(), 1);
            assert_eq!(rs.pairs()[0].inner(), (0, 1));
        }
        _ => panic!("expected a new command"),
    }
}

#[test]
fn parse_version_two_skips_two_stash_lines() {
    let tl = TransferList::parse(b"4\n8\n0\n0\nerase 2,0,4\nnew 2,0,2\n").unwrap();
    assert_eq!(tl.version(), 4);
    assert_eq!(tl.new_blocks(), 8);
    assert_eq!(tl.commands().len(), 2);
    assert!(matches!(tl.commands()[0], Command::Erase(_)));
    assert!(matches!(tl.commands()[1], Command::New(_)));
}

#[test]
fn parse_version_two_discards_the_two_lines_unread() {
    // Under version 2 the third and fourth lines are dropped whatever they
    // hold, even text that looks like commands.
    let tl = TransferList::parse(b"2\n8\nerase 2,0,1\nzero 2,1,2\nnew 2,0,2\n").unwrap();
    assert_eq!(tl.commands().len(), 1);
    assert!(matches!(tl.commands()[0], Command::New(_)));
}

#[test]
fn parse_version_one_reads_the_same_lines_as_commands() {
    let tl = TransferList::parse(b"1\n8\nerase 2,0,1\nzero 2,1,2\nnew 2,0,2\n").unwrap();
    assert_eq!(tl.commands().len(), 3);
    assert!(matches!(tl.commands()[0], Command::Erase(_)));
}

#[test]
fn parse_skips_lines_starting_with_a_digit() {
    let tl = TransferList::parse(b"1\n2\n10 anything at all\nnew 2,0,1\n").unwrap();
    assert_eq!(tl.commands().len(), 1);
    assert!(matches!(tl.commands()[0], Command::New(_)));
}

#[test]
fn parse_zero_command() {
    let tl = TransferList::parse(b"1\n0\nzero 2,3,7\n").unwrap();
    assert_eq!(tl.commands().len(), 1);
    match &tl.commands()[0] {
        Command::Zero(rs) => assert_eq!(rs.pairs()[0].inner(), (3, 7)),
        _ => panic!("expected a zero command"),
    }
}

#[test]
fn parse_unknown_command_names_the_keyword() {
    let e = TransferList::parse(b"1\n0\nfoo 2,0,1\n").unwrap_err();
    match e {
        Error::UnknownCommand(kw) => assert_eq!(kw, b"foo".to_vec()),
        _ => panic!("expected an unknown-command error"),
    }
}

#[test]
fn parse_empty_input_is_malformed_header() {
    assert!(matches!(
        TransferList::parse(b"").unwrap_err(),
        Error::MalformedHeader
    ));
    assert!(matches!(
        TransferList::parse(b"1\n").unwrap_err(),
        Error::MalformedHeader
    ));
}

#[test]
fn parse_non_numeric_header_is_malformed() {
    assert!(matches!(
        TransferList::parse(b"abc\n2\n").unwrap_err(),
        Error::MalformedHeader
    ));
    assert!(matches!(
        TransferList::parse(b"1\nxyz\n").unwrap_err(),
        Error::MalformedHeader
    ));
}

#[test]
fn parse_version_above_u8_is_malformed() {
    assert!(matches!(
        TransferList::parse(b"300\n2\n").unwrap_err(),
        Error::MalformedHeader
    ));
}

#[test]
fn parse_bad_range_set_propagates() {
    let e = TransferList::parse(b"1\n0\nnew 3,0,1,2\n").unwrap_err();
    assert!(matches!(e, Error::MalformedRangeSet));
}

#[test]
fn parse_command_without_range_set_is_malformed() {
    let e = TransferList::parse(b"1\n0\nnew\n").unwrap_err();
    assert!(matches!(e, Error::MalformedRangeSet));
}

#[test]
fn parse_header_only_manifest_has_no_commands() {
    let tl = TransferList::parse(b"1\n0\n").unwrap();
    assert_eq!(tl.commands().len(), 0);
}

#[test]
fn parse_strips_carriage_returns() {
    let tl = TransferList::parse(b"1\n2\r\nnew 4,0,1,2,3\r\n").unwrap();
    assert_eq!(tl.new_blocks(), 2);
    assert_eq!(tl.commands().len(), 1);
}

#[test]
fn parse_command_order_is_file_order() {
    let tl =
        TransferList::parse(b"1\n4\nzero 2,8,9\nnew 2,0,1\nerase 2,4,5\nnew 2,2,3\n").unwrap();
    let kinds: Vec<&str> = tl.commands().iter().map(|c| c.kind_name()).collect();
    assert_eq!(kinds, vec!["Zero", "New", "Erase", "New"]);
}

#[test]
fn check_wf_accepts_parsed_lists() {
    let tl = TransferList::parse(b"1\n2\nnew 2,0,1\n").unwrap();
    assert!(tl.check_wf());
}
