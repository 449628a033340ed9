use mempool_miner::{Miner, SelectError, Transaction, MAX_BLOCK_TX_WEIGHT};

fn tx(id: &str, fee: u64, weight: u32, parents: &[&str]) -> Transaction {
    Transaction {
        txid: id.to_string(),
        fee,
        weight,
        parent_txids: parents.iter().map(|p| p.to_string()).collect(),
    }
}

fn mine_pool(txs: Vec<Transaction>, max: u32) -> Result<(Vec<Vec<String>>, Vec<String>), SelectError> {
    let mut miner = Miner::from_transactions(txs)?;
    miner.mine_with_limit(max)?;
    let blocks = miner
        .blocks()
        .iter()
        .map(|b| b.iter().map(|t| t.txid.clone()).collect())
        .collect();
    let stuck = miner.stuck().iter().map(|t| t.txid.clone()).collect();
    Ok((blocks, stuck))
}

#[test]
fn empty_pool_is_not_an_error() {
    let (blocks, stuck) = mine_pool(vec![], 1000).unwrap();
    assert!(blocks.is_empty());
    assert!(stuck.is_empty());
}

#[test]
fn single_transaction_single_block() {
    let (blocks, stuck) = mine_pool(vec![tx("a", 10, 100, &[])], 1000).unwrap();
    assert_eq!(blocks, vec![vec!["a".to_string()]]);
    assert!(stuck.is_empty());
}

#[test]
fn block_weights_never_exceed_cap() {
    let txs = vec![
        tx("a", 50, 400, &[]),
        tx("b", 40, 400, &[]),
        tx("c", 30, 400, &[]),
        tx("d", 20, 400, &[]),
        tx("e", 10, 400, &[]),
    ];
    let mut miner = Miner::from_transactions(txs).unwrap();
    miner.mine_with_limit(1000).unwrap();
    for block in miner.blocks().iter() {
        let total: u64 = block.iter().map(|t| t.weight as u64).sum();
        assert!(total <= 1000);
        assert!(!block.is_empty());
    }
}

#[test]
fn parents_placed_before_children() {
    let txs = vec![
        tx("a", 1, 100, &[]),
        tx("b", 1000, 100, &["a"]),
        tx("c", 500, 100, &["b"]),
        tx("d", 2000, 100, &["c", "a"]),
        tx("e", 3, 100, &[]),
    ];
    let (blocks, stuck) = mine_pool(txs, 250).unwrap();
    assert!(stuck.is_empty());
    let mut position = std::collections::HashMap::new();
    for (b, block) in blocks.iter().enumerate() {
        for (i, id) in block.iter().enumerate() {
            position.insert(id.clone(), (b, i));
        }
    }
    let deps = [("b", "a"), ("c", "b"), ("d", "c"), ("d", "a")];
    for (child, parent) in deps {
        let c = position[child];
        let p = position[parent];
        assert!(p < c, "{parent} must be placed before {child}");
    }
}

#[test]
fn conservation_every_transaction_exactly_once() {
    let txs = vec![
        tx("a", 5, 100, &[]),
        tx("b", 4, 100, &["a"]),
        tx("c", 3, 100, &["missing_external"]),
        tx("huge", 9, 5000, &[]),
        tx("child_of_huge", 9, 10, &["huge"]),
    ];
    let (blocks, stuck) = mine_pool(txs, 300).unwrap();
    let mut seen: Vec<String> = blocks.iter().flatten().cloned().collect();
    seen.extend(stuck.iter().cloned());
    seen.sort();
    let mut expected = vec!["a", "b", "c", "child_of_huge", "huge"];
    expected.sort();
    assert_eq!(seen, expected);
}

#[test]
fn determinism_identical_runs_identical_blocks() {
    let build = || {
        vec![
            tx("m", 70, 120, &[]),
            tx("n", 70, 120, &[]),
            tx("o", 70, 120, &[]),
            tx("p", 500, 60, &["m"]),
            tx("q", 500, 60, &["n"]),
        ]
    };
    let first = mine_pool(build(), 240).unwrap();
    let second = mine_pool(build(), 240).unwrap();
    assert_eq!(first, second);
}

#[test]
fn ancestor_awareness_defers_child_until_parent_lands() {
    // B's own fee dwarfs A's, but B depends on A: a fee-only ranking
    // would try B first; the engine must defer B, admit A, and still
    // collect B's fee in the same run.
    let txs = vec![
        tx("a", 100, 100, &[]),
        tx("b", 1000, 100, &["a"]),
        tx("c", 50, 100, &[]),
    ];
    let (blocks, stuck) = mine_pool(txs, 350).unwrap();
    assert!(stuck.is_empty());
    assert_eq!(blocks.len(), 1, "all three fit one 350-weight block");
    let block = &blocks[0];
    assert_eq!(block.len(), 3);
    let pos_a = block.iter().position(|t| t == "a").unwrap();
    let pos_b = block.iter().position(|t| t == "b").unwrap();
    assert!(pos_a < pos_b, "b is deferred until a is admitted, never dropped");
}

#[test]
fn ancestor_awareness_with_tight_cap_keeps_child() {
    let txs = vec![
        tx("a", 100, 100, &[]),
        tx("b", 1000, 100, &["a"]),
        tx("c", 50, 100, &[]),
    ];
    let (blocks, stuck) = mine_pool(txs, 250).unwrap();
    assert!(stuck.is_empty());
    let all: Vec<String> = blocks.iter().flatten().cloned().collect();
    assert!(all.contains(&"b".to_string()), "b is never dropped");
    let mut position = std::collections::HashMap::new();
    for (b, block) in blocks.iter().enumerate() {
        for (i, id) in block.iter().enumerate() {
            position.insert(id.clone(), (b, i));
        }
    }
    assert!(position["a"] < position["b"]);
}

#[test]
fn oversize_transaction_reported_never_mined() {
    let txs = vec![tx("ok", 10, 100, &[]), tx("too_big", 1000, 5000, &[])];
    let (blocks, stuck) = mine_pool(txs, 1000).unwrap();
    assert!(blocks.iter().flatten().all(|t| t != "too_big"));
    assert_eq!(stuck, vec!["too_big".to_string()]);
}

#[test]
fn dependent_of_oversize_is_stuck_too() {
    let txs = vec![tx("big", 10, 5000, &[]), tx("kid", 99, 10, &["big"])];
    let (blocks, stuck) = mine_pool(txs, 1000).unwrap();
    assert!(blocks.is_empty());
    let mut stuck_sorted = stuck.clone();
    stuck_sorted.sort();
    assert_eq!(stuck_sorted, vec!["big".to_string(), "kid".to_string()]);
}

#[test]
fn cycle_detected_before_any_block() {
    let txs = vec![tx("a", 5, 100, &["b"]), tx("b", 5, 100, &["a"]), tx("c", 5, 100, &[])];
    let mut miner = Miner::from_transactions(txs).unwrap();
    let r = miner.mine_with_limit(1000);
    match r {
        Err(SelectError::Cycle { txid }) => {
            assert!(txid == "a" || txid == "b");
        }
        other => panic!("expected a cycle error, got {:?}", other.is_ok()),
    }
    assert!(miner.blocks().is_empty());
    assert!(miner.stuck().is_empty());
}

#[test]
fn self_cycle_detected() {
    let txs = vec![tx("loop_tx", 5, 100, &["loop_tx"])];
    let mut miner = Miner::from_transactions(txs).unwrap();
    assert!(matches!(
        miner.mine_with_limit(1000),
        Err(SelectError::Cycle { .. })
    ));
}

#[test]
fn heavy_pool_splits_into_multiple_blocks() {
    let txs = vec![
        tx("a", 9, 900, &[]),
        tx("b", 8, 900, &[]),
        tx("c", 7, 900, &[]),
    ];
    let (blocks, stuck) = mine_pool(txs, 1000).unwrap();
    assert!(stuck.is_empty());
    assert!(blocks.len() >= 2);
    assert_eq!(blocks.iter().flatten().count(), 3);
}

#[test]
fn higher_fee_rate_is_preferred() {
    // only two of the three fit: the two best fee-rates win
    let txs = vec![
        tx("cheap", 10, 100, &[]),
        tx("mid", 50, 100, &[]),
        tx("rich", 90, 100, &[]),
    ];
    let (blocks, _stuck) = mine_pool(txs, 200).unwrap();
    assert_eq!(blocks[0], vec!["rich".to_string(), "mid".to_string()]);
}

#[test]
fn tie_break_smaller_package_weight_then_id() {
    let txs = vec![
        tx("zz", 10, 100, &[]),
        tx("aa", 10, 100, &[]),
        tx("light", 5, 50, &[]),
    ];
    // all have fee-rate 1/10; "light" has the smaller package weight and
    // goes first; "aa" beats "zz" lexicographically
    let (blocks, stuck) = mine_pool(txs, 1000).unwrap();
    assert!(stuck.is_empty());
    assert_eq!(
        blocks[0],
        vec!["light".to_string(), "aa".to_string(), "zz".to_string()]
    );
}

#[test]
fn absent_parent_is_externally_confirmed() {
    let txs = vec![tx("only", 5, 100, &["not_in_pool"])];
    let (blocks, stuck) = mine_pool(txs, 1000).unwrap();
    assert_eq!(blocks, vec![vec!["only".to_string()]]);
    assert!(stuck.is_empty());
}

#[test]
fn duplicate_id_rejected_at_ingestion() {
    let txs = vec![tx("dup", 5, 100, &[]), tx("dup", 6, 200, &[])];
    assert!(matches!(
        Miner::from_transactions(txs),
        Err(SelectError::DuplicateId { .. })
    ));
}

#[test]
fn zero_weight_rejected_at_ingestion() {
    let txs = vec![tx("zero", 5, 0, &[])];
    assert!(matches!(
        Miner::from_transactions(txs),
        Err(SelectError::InvalidWeight { .. })
    ));
}

#[test]
fn fee_total_overflow_rejected_at_ingestion() {
    let txs = vec![tx("x", u64::MAX, 1, &[]), tx("y", 1, 1, &[])];
    assert!(matches!(
        Miner::from_transactions(txs),
        Err(SelectError::Overflow)
    ));
}

#[test]
fn mine_appends_and_never_wipes_finalized() {
    let txs = vec![tx("a", 5, 100, &[]), tx("big", 9, 5000, &[])];
    let mut miner = Miner::from_transactions(txs).unwrap();
    miner.mine_with_limit(1000).unwrap();
    assert_eq!(miner.blocks().len(), 1);
    assert_eq!(miner.stuck().len(), 1);
    // a second run on the drained pool leaves the earlier output untouched
    miner.mine_with_limit(1000).unwrap();
    assert_eq!(miner.blocks().len(), 1);
    assert_eq!(miner.blocks()[0][0].txid, "a");
    assert_eq!(miner.stuck().len(), 1);
    assert_eq!(miner.stuck()[0].txid, "big");
    assert!(miner.mempool().is_empty());
}

#[test]
fn default_max_block_weight_is_used_by_mine() {
    assert_eq!(MAX_BLOCK_TX_WEIGHT, 4_000_000);
    let txs = vec![tx("w", 5, 3_999_999, &[]), tx("v", 5, 2, &[])];
    let mut miner = Miner::from_transactions(txs).unwrap();
    miner.mine().unwrap();
    assert_eq!(miner.blocks().len(), 2);
    assert!(miner.stuck().is_empty());
    assert!(miner.mempool().is_empty());
}

#[test]
fn package_metrics_count_shared_ancestors_once() {
    // diamond: d depends on b and c, which both depend on a;
    // d's package must count a once, not twice
    let txs = vec![
        tx("a", 10, 100, &[]),
        tx("b", 20, 200, &["a"]),
        tx("c", 30, 300, &["a"]),
        tx("d", 40, 400, &["b", "c"]),
    ];
    let metrics = mempool_miner::ancestry::package_metrics(&txs).unwrap();
    assert_eq!(metrics[0].fee, 10);
    assert_eq!(metrics[0].weight, 100);
    assert_eq!(metrics[1].fee, 30);
    assert_eq!(metrics[1].weight, 300);
    assert_eq!(metrics[2].fee, 40);
    assert_eq!(metrics[2].weight, 400);
    assert_eq!(metrics[3].fee, 100);
    assert_eq!(metrics[3].weight, 1000);
}

#[test]
fn blocked_package_does_not_stall_the_block() {
    // "b" ranks first by package rate but waits on "a", which ranks last;
    // the block is filled with what is admissible, and the package lands
    // whole in the next block with the parent first
    let txs = vec![
        tx("a", 10, 100, &[]),
        tx("b", 1000, 100, &["a"]),
        tx("c", 600, 150, &[]),
    ];
    let (blocks, stuck) = mine_pool(txs, 200).unwrap();
    assert!(stuck.is_empty());
    assert_eq!(blocks[0], vec!["c".to_string()]);
    assert_eq!(blocks[1], vec!["a".to_string(), "b".to_string()]);
}
