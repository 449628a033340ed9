use mempool_miner::{ParseError, Transaction};

#[test]
fn parses_record_without_parents() {
    let t = Transaction::parser("abc,1000,57").unwrap();
    assert_eq!(t.txid, "abc");
    assert_eq!(t.fee, 1000);
    assert_eq!(t.weight, 57);
    assert!(t.parent_txids.is_empty());
}

#[test]
fn parses_record_with_parents() {
    let t = Transaction::parser("child,5,10,p1;p2;p3").unwrap();
    assert_eq!(t.txid, "child");
    assert_eq!(t.fee, 5);
    assert_eq!(t.weight, 10);
    assert_eq!(t.parent_txids, vec!["p1", "p2", "p3"]);
}

#[test]
fn empty_parent_entries_are_skipped() {
    let t = Transaction::parser("child,5,10,;p1;;p2;").unwrap();
    assert_eq!(t.parent_txids, vec!["p1", "p2"]);
}

#[test]
fn empty_parent_field_means_no_parents() {
    let t = Transaction::parser("solo,5,10,").unwrap();
    assert!(t.parent_txids.is_empty());
}

#[test]
fn fields_are_whitespace_trimmed() {
    let t = Transaction::parser("a, 5 ,10, b;c ").unwrap();
    assert_eq!(t.txid, "a");
    assert_eq!(t.fee, 5);
    assert_eq!(t.weight, 10);
    assert_eq!(t.parent_txids, vec!["b", "c"]);
}

#[test]
fn id_and_parents_are_trimmed() {
    let t = Transaction::parser("  spaced id  ,7,9,  p one ; p two  ").unwrap();
    assert_eq!(t.txid, "spaced id");
    assert_eq!(t.parent_txids, vec!["p one", "p two"]);
}

#[test]
fn whitespace_only_parent_entries_are_dropped() {
    let t = Transaction::parser("x,1,2,  ;p ;   ").unwrap();
    assert_eq!(t.parent_txids, vec!["p"]);
}

#[test]
fn blank_record_rejected() {
    assert!(matches!(
        Transaction::parser(""),
        Err(ParseError::WrongFieldCount)
    ));
    assert!(matches!(
        Transaction::parser("   "),
        Err(ParseError::WrongFieldCount)
    ));
}

#[test]
fn whitespace_only_id_rejected() {
    assert!(matches!(
        Transaction::parser("  ,5,10"),
        Err(ParseError::EmptyId)
    ));
}

#[test]
fn inner_whitespace_in_numbers_still_rejected() {
    assert!(matches!(
        Transaction::parser("a,1 2,10"),
        Err(ParseError::BadFee)
    ));
}

#[test]
fn zero_fee_is_allowed() {
    let t = Transaction::parser("free,0,10").unwrap();
    assert_eq!(t.fee, 0);
}

#[test]
fn largest_fee_and_weight_are_parsed_exactly() {
    let t = Transaction::parser("big,18446744073709551615,4294967295").unwrap();
    assert_eq!(t.fee, u64::MAX);
    assert_eq!(t.weight, u32::MAX);
}

#[test]
fn too_few_fields_rejected() {
    assert!(matches!(
        Transaction::parser("only_id,5"),
        Err(ParseError::WrongFieldCount)
    ));
}

#[test]
fn too_many_fields_rejected() {
    assert!(matches!(
        Transaction::parser("a,1,2,p,extra"),
        Err(ParseError::WrongFieldCount)
    ));
}

#[test]
fn empty_id_rejected() {
    assert!(matches!(
        Transaction::parser(",5,10"),
        Err(ParseError::EmptyId)
    ));
}

#[test]
fn non_numeric_fee_rejected() {
    assert!(matches!(
        Transaction::parser("a,five,10"),
        Err(ParseError::BadFee)
    ));
    assert!(matches!(Transaction::parser("a,,10"), Err(ParseError::BadFee)));
    assert!(matches!(
        Transaction::parser("a,-5,10"),
        Err(ParseError::BadFee)
    ));
}

#[test]
fn fee_overflow_rejected() {
    assert!(matches!(
        Transaction::parser("a,18446744073709551616,10"),
        Err(ParseError::BadFee)
    ));
}

#[test]
fn non_numeric_weight_rejected() {
    assert!(matches!(
        Transaction::parser("a,5,heavy"),
        Err(ParseError::BadWeight)
    ));
    assert!(matches!(
        Transaction::parser("a,5,4294967296"),
        Err(ParseError::BadWeight)
    ));
}

#[test]
fn zero_weight_rejected() {
    assert!(matches!(
        Transaction::parser("a,5,0"),
        Err(ParseError::ZeroWeight)
    ));
}

#[test]
fn parse_error_descriptions_are_distinct() {
    let errs = [
        ParseError::WrongFieldCount,
        ParseError::EmptyId,
        ParseError::BadFee,
        ParseError::BadWeight,
        ParseError::ZeroWeight,
    ];
    for (i, a) in errs.iter().enumerate() {
        for (j, b) in errs.iter().enumerate() {
            assert_eq!(i == j, a.describe() == b.describe());
        }
    }
}

#[test]
fn parsed_records_mine_like_constructed_ones() {
    let lines = ["a,100,100", "b,1000,100,a", "c,50,100"];
    let txs: Vec<Transaction> = lines
        .iter()
        .map(|l| Transaction::parser(l).unwrap())
        .collect();
    let mut miner = mempool_miner::Miner::from_transactions(txs).unwrap();
    miner.mine_with_limit(350).unwrap();
    let block: Vec<&str> = miner.blocks()[0].iter().map(|t| t.txid.as_str()).collect();
    assert_eq!(miner.blocks().len(), 1);
    assert_eq!(block.first(), Some(&"a"));
    assert!(block.contains(&"b"));
}
