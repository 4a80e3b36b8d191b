use dedup_engine::naming::{compressed_chunk_name, recipe_entry, recipe_file_name, recipe_name, requested_recipe_file};
use dedup_engine::restore::{choose_chunk_source, load_chunk, parse_recipe, restore_piece, restore_sized_piece, ChunkSource};
use dedup_engine::naming::{parse_size_line, size_entry};

#[test]
fn recipe_lines_are_read_in_order_without_empty_lines() {
    let text = "aaaa\n\nbbbb\r\ncccc";
    let r = parse_recipe(text);
    assert_eq!(r.hashes, vec!["aaaa".to_string(), "bbbb".to_string(), "cccc".to_string()]);
    assert_eq!(r.size, None);
}

#[test]
fn recipe_parsing_matches_lines_filter() {
    for text in ["", "\n", "a\n", "a\r\n\r\nb", "x\ry\n", "a\r", "\r\n", "one\ntwo\n\n"] {
        let expected: Vec<String> = text.lines().filter(|l| !l.is_empty()).map(|l| l.to_string()).collect();
        assert_eq!(parse_recipe(text).hashes, expected, "text {:?}", text);
    }
}

#[test]
fn written_entries_read_back() {
    let hashes = ["cbf29ce484222325", "85944171f73967e8", "cbf29ce484222325"];
    let mut text = String::new();
    for h in hashes {
        text.push_str(&recipe_entry(h));
    }
    assert_eq!(text, "cbf29ce484222325\n85944171f73967e8\ncbf29ce484222325\n");
    assert_eq!(parse_recipe(&text).hashes, hashes.iter().map(|h| h.to_string()).collect::<Vec<_>>());
    text.push_str(&size_entry(8193));
    let r = parse_recipe(&text);
    assert_eq!(r.size, Some(8193));
    assert_eq!(r.hashes.len(), 3);
}

#[test]
fn recipe_names() {
    assert_eq!(recipe_name("db.sql", "20240101_120000"), "db.sql_20240101_120000");
    assert_eq!(recipe_file_name("db.sql_20240101_120000"), "db.sql_20240101_120000.recipe");
    assert_eq!(requested_recipe_file("db.sql_1"), "db.sql_1.recipe");
    assert_eq!(requested_recipe_file("db.sql_1.recipe"), "db.sql_1.recipe");
    assert_eq!(compressed_chunk_name("cbf29ce484222325"), "cbf29ce484222325.zst");
}

#[test]
fn compressed_file_is_preferred() {
    assert_eq!(choose_chunk_source(true, true), ChunkSource::Compressed);
    assert_eq!(choose_chunk_source(true, false), ChunkSource::Compressed);
    assert_eq!(choose_chunk_source(false, true), ChunkSource::Plain);
    assert_eq!(choose_chunk_source(false, false), ChunkSource::Missing);
}

#[test]
fn plain_and_missing_chunks() {
    assert_eq!(load_chunk(ChunkSource::Plain, vec![1, 2, 0]), Some(vec![1, 2, 0]));
    assert_eq!(load_chunk(ChunkSource::Missing, vec![1]), None);
}

#[test]
fn size_lines() {
    assert_eq!(size_entry(0x1234), "size 0000000000001234\n");
    assert_eq!(parse_size_line("size 0000000000001234"), Some(0x1234));
    assert_eq!(parse_size_line("size ffffffffffffffff"), Some(u64::MAX));
    assert_eq!(parse_size_line("size 000000000000123"), None);
    assert_eq!(parse_size_line("size 000000000000123G"), None);
    assert_eq!(parse_size_line("SIZE 0000000000001234"), None);
    assert_eq!(parse_size_line("cbf29ce484222325"), None);
}

#[test]
fn sized_pieces_stop_at_the_size() {
    assert_eq!(restore_sized_piece(vec![1, 0, 0], 5), vec![1, 0, 0]);
    assert_eq!(restore_sized_piece(vec![1, 0, 0], 2), vec![1, 0]);
    assert_eq!(restore_sized_piece(vec![1, 0, 0], 0), Vec::<u8>::new());
}

#[test]
fn only_the_last_piece_is_trimmed() {
    assert_eq!(restore_piece(vec![1, 0, 0], 0, 2), vec![1, 0, 0]);
    assert_eq!(restore_piece(vec![1, 0, 0], 1, 2), vec![1]);
}
