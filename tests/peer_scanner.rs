use ckb_analyzer::peer_scanner::PeerScanner;

fn store_batch(null_ids: &[i32], after: i32, limit: usize) -> Vec<i32> {
    null_ids.iter().copied().filter(|&id| id > after).take(limit).collect()
}

#[test]
fn scanner_cursor_moves_forward_over_batches() {
    let rows = [3, 7, 9, 15];
    let mut scanner = PeerScanner::new("mainnet".to_string());
    let first = store_batch(&rows, scanner.last_id(), 2);
    assert_eq!(first, vec![3, 7]);
    assert!(scanner.advance(&first));
    assert_eq!(scanner.last_id(), 7);
    let second = store_batch(&rows, scanner.last_id(), 2);
    assert_eq!(second, vec![9, 15]);
    assert!(scanner.advance(&second));
    assert_eq!(scanner.last_id(), 15);
    let third = store_batch(&rows, scanner.last_id(), 2);
    assert!(third.is_empty());
    assert!(!scanner.advance(&third));
    assert_eq!(scanner.last_id(), 15);
}

#[test]
fn scanner_starts_before_first_row() {
    let scanner = PeerScanner::new("n".to_string());
    assert_eq!(scanner.last_id(), i32::MIN);
}

#[test]
fn scanner_statements() {
    let scanner = PeerScanner::new("mainnet".to_string());
    assert_eq!(
        scanner.select_statement(),
        "SELECT id, time, version, ip FROM mainnet.peer WHERE id > $1 AND country IS NULL ORDER BY ID LIMIT 100"
    );
    assert_eq!(
        scanner.update_statement(),
        "UPDATE mainnet.peer SET country = $1 WHERE id = $2"
    );
}

#[test]
fn scanner_first_batch_includes_non_positive_ids() {
    let rows = [-5, 0, 4];
    let mut scanner = PeerScanner::new("n".to_string());
    let first = store_batch(&rows, scanner.last_id(), 100);
    assert_eq!(first, vec![-5, 0, 4]);
    assert!(scanner.advance(&first));
    assert_eq!(scanner.last_id(), 4);
}
