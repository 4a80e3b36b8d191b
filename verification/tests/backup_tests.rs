use std::collections::HashMap;

use dedup_engine::backup::{BackupSession, ChunkAction, RepoMetrics, FREE_MAX_REPO_SIZE};
use dedup_engine::chunk::BLOCK_SIZE;
use dedup_engine::naming::compressed_chunk_name;
use dedup_engine::restore::{choose_chunk_source, load_chunk, parse_recipe, restore_piece, restore_sized_piece};

/// Runs a backup of `file` into the in-memory chunk store `dir`, as the
/// command-line tool does on disk; returns the recipe text.
fn backup(dir: &mut HashMap<String, Vec<u8>>, session: &mut BackupSession, file: &[u8]) -> String {
    let mut recipe = String::new();
    for block in file.chunks(BLOCK_SIZE) {
        let chunk = session.prepare(block);
        let exists = dir.contains_key(&chunk.hash) || dir.contains_key(&compressed_chunk_name(&chunk.hash));
        match session.settle(&chunk, exists) {
            ChunkAction::Reuse { recipe_entry } => recipe.push_str(&recipe_entry),
            ChunkAction::Store { file_name, bytes, next_entry } => {
                dir.insert(file_name, bytes);
                match next_entry {
                    Some(e) => recipe.push_str(&e),
                    None => break,
                }
            }
            ChunkAction::LimitReached => break,
            ChunkAction::CounterOverflow => panic!("overflow"),
        }
    }
    recipe.push_str(&session.recipe_trailer());
    recipe
}

fn restore(dir: &HashMap<String, Vec<u8>>, recipe: &str) -> Option<Vec<u8>> {
    let parsed = parse_recipe(recipe);
    let hashes = parsed.hashes;
    let mut remaining = parsed.size;
    let mut out = Vec::new();
    for (i, h) in hashes.iter().enumerate() {
        let zst = compressed_chunk_name(h);
        let source = choose_chunk_source(dir.contains_key(&zst), dir.contains_key(h));
        let bytes = dir.get(&zst).or(dir.get(h)).cloned().unwrap_or_default();
        let chunk = load_chunk(source, bytes)?;
        match remaining {
            Some(n) => {
                let piece = restore_sized_piece(chunk, n);
                remaining = Some(n - piece.len() as u64);
                out.extend(piece);
            }
            None => out.extend(restore_piece(chunk, i, hashes.len())),
        }
    }
    Some(out)
}

fn sample_file(len: usize) -> Vec<u8> {
    (0..len).map(|i| ((i * 7 + i / BLOCK_SIZE) % 255) as u8 + 1).collect()
}

#[test]
fn backup_then_restore_gives_the_file_back() {
    for compress in [false, true] {
        let file = sample_file(3 * BLOCK_SIZE + 100);
        let mut dir = HashMap::new();
        let mut s = BackupSession::new(compress, false, RepoMetrics::empty());
        let recipe = backup(&mut dir, &mut s, &file);
        assert_eq!(recipe.lines().count(), 5);
        assert_eq!(recipe.lines().last(), Some(format!("size {:016x}", file.len()).as_str()));
        assert_eq!(restore(&dir, &recipe), Some(file.clone()));
        assert_eq!(s.metrics.logical_bytes, file.len() as u64);
        assert_eq!(s.new_chunks + s.dedup_chunks, 4);
        if compress {
            assert!(dir.keys().all(|k| k.ends_with(".zst")));
        } else {
            assert_eq!(s.metrics.stored_bytes, 4 * BLOCK_SIZE as u64);
        }
    }
}

#[test]
fn repeated_blocks_are_stored_once() {
    let block = sample_file(BLOCK_SIZE);
    let mut file = block.clone();
    file.extend(&block);
    file.extend(&block);
    let mut dir = HashMap::new();
    let mut s = BackupSession::new(false, false, RepoMetrics::empty());
    let recipe = backup(&mut dir, &mut s, &file);
    assert_eq!(s.new_chunks, 1);
    assert_eq!(s.dedup_chunks, 2);
    assert_eq!(dir.len(), 1);
    assert_eq!(s.metrics.stored_bytes, BLOCK_SIZE as u64);
    assert_eq!(restore(&dir, &recipe), Some(file));
}

#[test]
fn second_backup_stores_nothing() {
    let file = sample_file(2 * BLOCK_SIZE + 5);
    let mut dir = HashMap::new();
    let mut s = BackupSession::new(false, true, RepoMetrics::empty());
    backup(&mut dir, &mut s, &file);
    let before = dir.clone();
    let mut again = BackupSession::new(false, true, s.metrics);
    let recipe = backup(&mut dir, &mut again, &file);
    assert_eq!(dir, before);
    assert_eq!(again.new_chunks, 0);
    assert_eq!(again.dedup_chunks, 3);
    assert_eq!(again.metrics.stored_bytes, s.metrics.stored_bytes);
    assert_eq!(again.metrics.logical_bytes, 2 * file.len() as u64);
    assert_eq!(restore(&dir, &recipe), Some(file));
}

#[test]
fn trailing_zeros_of_the_file_are_kept() {
    let mut file = sample_file(10);
    file.push(0);
    let mut dir = HashMap::new();
    let mut s = BackupSession::new(false, false, RepoMetrics::empty());
    let recipe = backup(&mut dir, &mut s, &file);
    assert_eq!(restore(&dir, &recipe), Some(file.clone()));
    let mut shorter = HashMap::new();
    let mut t = BackupSession::new(false, false, RepoMetrics::empty());
    let other = backup(&mut shorter, &mut t, &file[..10]);
    assert_ne!(recipe, other);
    assert_eq!(restore(&shorter, &other), Some(file[..10].to_vec()));
    let zeros = vec![0u8; 2 * BLOCK_SIZE];
    let mut z = HashMap::new();
    let mut u = BackupSession::new(false, false, RepoMetrics::empty());
    let zr = backup(&mut z, &mut u, &zeros);
    assert_eq!(restore(&z, &zr), Some(zeros));
}

#[test]
fn chunks_unpadded_are_file_and_zeros() {
    let file = sample_file(BLOCK_SIZE + 3);
    let mut dir = HashMap::new();
    let mut s = BackupSession::new(false, false, RepoMetrics::empty());
    let recipe = backup(&mut dir, &mut s, &file);
    let mut all: Vec<u8> = Vec::new();
    for h in parse_recipe(&recipe).hashes {
        all.extend(dir.get(&h).unwrap());
    }
    let mut expected = file.clone();
    expected.extend(vec![0u8; BLOCK_SIZE - 3]);
    assert_eq!(all, expected);
}

#[test]
fn old_recipes_without_size_still_restore() {
    let file = sample_file(100);
    let mut dir = HashMap::new();
    let mut s = BackupSession::new(false, false, RepoMetrics::empty());
    let recipe = backup(&mut dir, &mut s, &file);
    let old: String = recipe.lines().take(1).map(|l| format!("{}\n", l)).collect();
    assert_eq!(restore(&dir, &old), Some(file));
}

#[test]
fn free_plan_stops_at_the_storage_limit() {
    let file = sample_file(2 * BLOCK_SIZE);
    let mut dir = HashMap::new();
    let start = RepoMetrics { logical_bytes: 0, stored_bytes: FREE_MAX_REPO_SIZE - 10 };
    let mut s = BackupSession::new(false, true, start);
    let recipe = backup(&mut dir, &mut s, &file);
    assert!(s.stopped);
    assert_eq!(s.new_chunks, 0);
    assert_eq!(recipe, "size 0000000000000000\n");
    assert!(dir.is_empty());
    assert_eq!(s.metrics.stored_bytes, FREE_MAX_REPO_SIZE - 10);
    assert_eq!(s.metrics.logical_bytes, BLOCK_SIZE as u64);
    assert_eq!(restore(&dir, &recipe), Some(Vec::new()));
}

#[test]
fn free_plan_fills_up_to_the_limit_exactly() {
    let file = sample_file(3 * BLOCK_SIZE);
    let mut dir = HashMap::new();
    let start = RepoMetrics { logical_bytes: 0, stored_bytes: FREE_MAX_REPO_SIZE - 2 * BLOCK_SIZE as u64 };
    let mut s = BackupSession::new(false, true, start);
    let recipe = backup(&mut dir, &mut s, &file);
    assert!(s.stopped);
    assert_eq!(s.new_chunks, 2);
    assert_eq!(dir.len(), 2);
    assert_eq!(s.metrics.stored_bytes, FREE_MAX_REPO_SIZE);
    assert_eq!(s.listed_bytes, BLOCK_SIZE as u64);
    assert_eq!(recipe.lines().count(), 2);
    assert_eq!(restore(&dir, &recipe), Some(file[..BLOCK_SIZE].to_vec()));
}

#[test]
fn reaching_the_limit_exactly_stores_and_ends_the_run() {
    let start = RepoMetrics { logical_bytes: 0, stored_bytes: FREE_MAX_REPO_SIZE - BLOCK_SIZE as u64 };
    let mut s = BackupSession::new(false, true, start);
    let chunk = s.prepare(&sample_file(BLOCK_SIZE));
    match s.settle(&chunk, false) {
        ChunkAction::Store { next_entry, bytes, .. } => {
            assert!(next_entry.is_none());
            assert_eq!(bytes.len(), BLOCK_SIZE);
        }
        _ => panic!("expected a store"),
    }
    assert!(s.stopped);
    assert_eq!(s.metrics.stored_bytes, FREE_MAX_REPO_SIZE);
    assert_eq!(s.listed_bytes, 0);
}

#[test]
fn paid_plan_has_no_storage_limit() {
    let file = sample_file(BLOCK_SIZE);
    let mut dir = HashMap::new();
    let start = RepoMetrics { logical_bytes: 0, stored_bytes: FREE_MAX_REPO_SIZE };
    let mut s = BackupSession::new(false, false, start);
    let recipe = backup(&mut dir, &mut s, &file);
    assert!(!s.stopped);
    assert_eq!(recipe.len(), 17 + 22);
}

#[test]
fn stored_counter_overflow_is_reported() {
    let mut s = BackupSession::new(false, false, RepoMetrics { logical_bytes: 0, stored_bytes: u64::MAX - 1 });
    let chunk = s.prepare(b"x");
    assert!(matches!(s.settle(&chunk, false), ChunkAction::CounterOverflow));
    assert_eq!(s.metrics.stored_bytes, u64::MAX - 1);
    assert!(matches!(s.settle(&chunk, true), ChunkAction::Reuse { .. }));
}

#[test]
fn old_recipe_restores_after_later_backups() {
    let file1 = sample_file(2 * BLOCK_SIZE + 7);
    let mut file2 = file1.clone();
    file2[5] ^= 0xff;
    file2.extend(b"more");
    let mut dir = HashMap::new();
    let mut s1 = BackupSession::new(false, false, RepoMetrics::empty());
    let recipe1 = backup(&mut dir, &mut s1, &file1);
    let mut s2 = BackupSession::new(true, false, s1.metrics);
    let recipe2 = backup(&mut dir, &mut s2, &file2);
    assert_ne!(recipe1, recipe2);
    assert_eq!(restore(&dir, &recipe1), Some(file1));
    assert_eq!(restore(&dir, &recipe2), Some(file2));
}
