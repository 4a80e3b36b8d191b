//! The repository as the backup and restore steps see it, and what holds of a
//! backup run followed by a restore.
//!
//! The chunk store is modelled as a map from file name to file bytes. A
//! backup run applies the steps of `backup` to the blocks of a file, where a
//! chunk counts as present when its plain or `.zst` file is in the map, and
//! closes its recipe with a size line; a restore reads the chunk names and
//! the size of the recipe and the chunks the names give.

use vstd::prelude::*;
use vstd::seq_lib::lemma_flatten_concat;
use crate::backup::{BackupSession, StoreStep, FREE_MAX_REPO_SIZE, after_read, settle_spec, stored_form, stored_file_name};
use crate::chunk::{BLOCK_SIZE, padded, zeros};
use crate::compress::{COMPRESSION_LEVEL, zstd_frame, zstd_decoded};
use crate::hash::{chunk_hash_name, hex_alphabet, hex16, fnv1a, is_hex_name, lemma_hex16_is_hex_name};
use crate::naming::{compressed_name, recipe_line, zst_ext, size_line, size_text, size_prefix, lemma_size_line_roundtrip};
use crate::text::has_prefix;
use crate::restore::{recipe_lines, recipe_parts, recipe_lines_from, strip_cr, assemble, sized_restore, lemma_sized_restore};

verus! {

/// The name of the chunk stored for `block`.
pub open spec fn block_hash(block: Seq<u8>) -> Seq<char> {
    chunk_hash_name(padded(block))
}

/// A chunk named `hash` is in the store, plain or compressed.
pub open spec fn chunk_present(dir: Map<Seq<char>, Seq<u8>>, hash: Seq<char>) -> bool {
    dir.contains_key(hash) || dir.contains_key(compressed_name(hash))
}

/// The content that a restore reads for the chunk named `hash`: the `.zst`
/// file decompressed when there is one, else the plain file.
pub open spec fn stored_chunk(dir: Map<Seq<char>, Seq<u8>>, hash: Seq<char>) -> Option<Seq<u8>> {
    if dir.contains_key(compressed_name(hash)) {
        zstd_decoded(dir[compressed_name(hash)])
    } else if dir.contains_key(hash) {
        Some(dir[hash])
    } else {
        None
    }
}

/// A backup run in progress: the session, the chunk store and the recipe text
/// written so far.
pub struct BackupModel {
    pub session: BackupSession,
    pub dir: Map<Seq<char>, Seq<u8>>,
    pub recipe: Seq<char>,
}

/// One block of a backup run: read, prepared, then found, stored (and, at the
/// free plan's storage limit, left out of the recipe), or refused at the limit.
pub open spec fn model_block(m: BackupModel, block: Seq<u8>) -> BackupModel {
    let s1 = after_read(m.session, block.len());
    let data = padded(block);
    let hash = chunk_hash_name(data);
    let r = settle_spec(s1, data, block.len(), hash, chunk_present(m.dir, hash));
    match r.1 {
        StoreStep::Reuse { line } => BackupModel { session: r.0, dir: m.dir, recipe: m.recipe + line },
        StoreStep::Store { name, bytes, line_after } => BackupModel {
            session: r.0,
            dir: m.dir.insert(name, bytes),
            recipe: match line_after {
                Some(l) => m.recipe + l,
                None => m.recipe,
            },
        },
        StoreStep::LimitReached => BackupModel { session: r.0, dir: m.dir, recipe: m.recipe },
    }
}

/// A backup run over `blocks`, in order, ending early once the session stops.
pub open spec fn model_run(m: BackupModel, blocks: Seq<Seq<u8>>) -> BackupModel
    decreases blocks.len(),
{
    if blocks.len() == 0 || m.session.stopped {
        m
    } else {
        model_run(model_block(m, blocks[0]), blocks.drop_first())
    }
}

/// The chunks that `hashes` name, in order; `None` if one cannot be read.
pub open spec fn restore_chunks(dir: Map<Seq<char>, Seq<u8>>, hashes: Seq<Seq<char>>) -> Option<Seq<Seq<u8>>>
    decreases hashes.len(),
{
    if hashes.len() == 0 {
        Some(Seq::empty())
    } else {
        match (stored_chunk(dir, hashes[0]), restore_chunks(dir, hashes.drop_first())) {
            (Some(c), Some(rest)) => Some(seq![c] + rest),
            _ => None,
        }
    }
}

/// The recipe a run leaves: its chunk lines, closed by the size line.
pub open spec fn finished_recipe(m: BackupModel) -> Seq<char> {
    m.recipe + size_line(m.session.listed_bytes)
}

/// The file that restoring the recipe `recipe` from `dir` writes; `None` when
/// a chunk is missing or cannot be decompressed. A recipe closed by a size
/// line gives the chunks cut to that size; an older recipe without one gives
/// the chunks with the trailing zeros of the last one trimmed.
pub open spec fn restore_model(dir: Map<Seq<char>, Seq<u8>>, recipe: Seq<char>) -> Option<Seq<u8>> {
    match restore_chunks(dir, recipe_parts(recipe).0) {
        Some(chunks) => Some(
            match recipe_parts(recipe).1 {
                Some(n) => sized_restore(chunks, n as nat),
                None => assemble(chunks),
            },
        ),
        None => None,
    }
}

/// How many blocks a run lists in its recipe: all of them, or those before
/// the block refused at the storage limit.
pub open spec fn listed_prefix(m: BackupModel, blocks: Seq<Seq<u8>>) -> nat
    decreases blocks.len(),
{
    if blocks.len() == 0 || m.session.stopped {
        0
    } else if model_block(m, blocks[0]).session.stopped {
        0
    } else {
        1 + listed_prefix(model_block(m, blocks[0]), blocks.drop_first())
    }
}

/// A file cut into the blocks that a backup reads: full blocks of
/// `BLOCK_SIZE` bytes, then what is left.
pub open spec fn file_blocks(data: Seq<u8>) -> Seq<Seq<u8>>
    decreases data.len(),
{
    if data.len() == 0 {
        Seq::empty()
    } else if data.len() <= BLOCK_SIZE {
        seq![data]
    } else {
        seq![data.take(BLOCK_SIZE as int)] + file_blocks(data.skip(BLOCK_SIZE as int))
    }
}

/// The zero bytes that pad the last chunk of a file of `len` bytes.
pub open spec fn padding_len(len: nat) -> nat {
    ((BLOCK_SIZE as int - (len % (BLOCK_SIZE as nat)) as int) % (BLOCK_SIZE as int)) as nat
}

/// The blocks that reads of a file return: each of 1 to `BLOCK_SIZE` bytes,
/// all but the last one full.
pub open spec fn full_blocks(blocks: Seq<Seq<u8>>) -> bool {
    &&& forall|i: int| 0 <= i < blocks.len() ==> 0 < #[trigger] blocks[i].len() <= BLOCK_SIZE
    &&& forall|i: int| 0 <= i < blocks.len() - 1 ==> #[trigger] blocks[i].len() == BLOCK_SIZE
}

/// No two different chunks of the file share a name.
pub open spec fn collision_free(blocks: Seq<Seq<u8>>) -> bool {
    forall|i: int, j: int|
        0 <= i < blocks.len() && 0 <= j < blocks.len() && #[trigger] block_hash(blocks[i])
            == #[trigger] block_hash(blocks[j]) ==> padded(blocks[i]) == padded(blocks[j])
}

/// Every chunk of the file that the store already has under its name holds
/// the chunk's own bytes.
pub open spec fn store_agrees(dir: Map<Seq<char>, Seq<u8>>, blocks: Seq<Seq<u8>>) -> bool {
    forall|i: int|
        0 <= i < blocks.len() && chunk_present(dir, #[trigger] block_hash(blocks[i])) ==> stored_chunk(
            dir,
            block_hash(blocks[i]),
        ) == Some(padded(blocks[i]))
}

/// Decompressing the frame of each chunk of the file gives the chunk back.
pub open spec fn frames_lossless(blocks: Seq<Seq<u8>>) -> bool {
    forall|i: int|
        0 <= i < blocks.len() ==> zstd_decoded(zstd_frame(#[trigger] padded(blocks[i]), COMPRESSION_LEVEL))
            == Some(padded(blocks[i]))
}

/// The recipe text listing `hashes`: one line per name.
pub open spec fn recipe_text(hashes: Seq<Seq<char>>) -> Seq<char>
    decreases hashes.len(),
{
    if hashes.len() == 0 {
        Seq::empty()
    } else {
        recipe_line(hashes[0]) + recipe_text(hashes.drop_first())
    }
}

/// The chunk names of `blocks`.
pub open spec fn hashes_of(blocks: Seq<Seq<u8>>) -> Seq<Seq<char>> {
    blocks.map_values(|b: Seq<u8>| block_hash(b))
}

/// The chunks of `blocks`.
pub open spec fn padded_all(blocks: Seq<Seq<u8>>) -> Seq<Seq<u8>> {
    blocks.map_values(|b: Seq<u8>| padded(b))
}

proof fn lemma_hex_char_not_line_end(c: char)
    requires
        hex_alphabet().contains(c),
    ensures
        c != '\n',
        c != '\r',
        c != '.',
        c != 's',
{
    let i = choose|i: int| 0 <= i < hex_alphabet().len() && hex_alphabet()[i] == c;
    assert(hex_alphabet() =~= seq!['0', '1', '2', '3', '4', '5', '6', '7', '8', '9', 'a', 'b', 'c', 'd', 'e', 'f']);
    assert(0 <= i < 16);
}

/// Chunk names hold no line break, so a recipe line holds exactly one name.
proof fn lemma_block_hash_shape(block: Seq<u8>)
    ensures
        is_hex_name(block_hash(block)),
        forall|k: int| 0 <= k < block_hash(block).len() ==> #[trigger] block_hash(block)[k] != '\n'
            && block_hash(block)[k] != '\r',
{
    lemma_hex16_is_hex_name(fnv1a(padded(block)));
    let h = block_hash(block);
    assert forall|k: int| 0 <= k < h.len() implies #[trigger] h[k] != '\n' && h[k] != '\r' by {
        lemma_hex_char_not_line_end(h[k]);
    }
}

proof fn lemma_lines_skip_word(p: Seq<char>, rest: Seq<char>, cur: Seq<char>)
    requires
        forall|k: int| 0 <= k < p.len() ==> p[k] != '\n',
    ensures
        recipe_lines_from(p + rest, cur) == recipe_lines_from(rest, cur + p),
    decreases p.len(),
{
    if p.len() == 0 {
        assert(p + rest =~= rest);
        assert(cur + p =~= cur);
    } else {
        let t = p + rest;
        assert(t[0] == p[0]);
        assert(t.drop_first() =~= p.drop_first() + rest);
        lemma_lines_skip_word(p.drop_first(), rest, cur.push(p[0]));
        assert(cur.push(p[0]) + p.drop_first() =~= cur + p);
    }
}

/// Names that a recipe line can carry: not empty, no line break in them.
pub open spec fn line_safe(hashes: Seq<Seq<char>>) -> bool {
    &&& forall|i: int| 0 <= i < hashes.len() ==> #[trigger] hashes[i].len() > 0
    &&& forall|i: int, k: int|
        0 <= i < hashes.len() && 0 <= k < hashes[i].len() ==> #[trigger] hashes[i][k] != '\n'
            && hashes[i][k] != '\r'
}

/// Reading back a recipe gives the chunk names that were written to it, in
/// order, for names without line breaks.
pub proof fn lemma_recipe_roundtrip(hashes: Seq<Seq<char>>)
    requires
        line_safe(hashes),
    ensures
        recipe_lines(recipe_text(hashes)) == hashes,
    decreases hashes.len(),
{
    if hashes.len() > 0 {
        let h = hashes[0];
        let rest = hashes.drop_first();
        let t = recipe_text(rest);
        reveal_strlit("\n");
        let u = seq!['\n'] + t;
        assert(recipe_line(h) + t =~= h + u);
        assert forall|k: int| 0 <= k < h.len() implies h[k] != '\n' by {
            assert(hashes[0][k] != '\n');
        }
        lemma_lines_skip_word(h, u, Seq::empty());
        assert(Seq::<char>::empty() + h =~= h);
        assert(u[0] == '\n');
        assert(u.drop_first() =~= t);
        assert(hashes[0][h.len() - 1] != '\r');
        assert(strip_cr(h) == h);
        assert(line_safe(rest)) by {
            assert forall|i: int, k: int|
                0 <= i < rest.len() && 0 <= k < rest[i].len() implies #[trigger] rest[i][k] != '\n'
                && rest[i][k] != '\r' by {
                assert(rest[i] == hashes[i + 1]);
            }
            assert forall|i: int| 0 <= i < rest.len() implies #[trigger] rest[i].len() > 0 by {
                assert(rest[i] == hashes[i + 1]);
            }
        }
        lemma_recipe_roundtrip(rest);
        assert(seq![h] + rest =~= hashes);
    }
}

proof fn lemma_recipe_text_push(hashes: Seq<Seq<char>>, h: Seq<char>)
    ensures
        recipe_text(hashes.push(h)) == recipe_text(hashes) + recipe_line(h),
    decreases hashes.len(),
{
    if hashes.len() == 0 {
        assert(hashes.push(h).drop_first() =~= Seq::<Seq<char>>::empty());
        assert(recipe_text(Seq::<Seq<char>>::empty()) == Seq::<char>::empty());
        assert(hashes.push(h)[0] == h);
        assert(recipe_line(h) + Seq::<char>::empty() =~= recipe_line(h));
        assert(Seq::<char>::empty() + recipe_line(h) =~= recipe_line(h));
    } else {
        assert(hashes.push(h).drop_first() =~= hashes.drop_first().push(h));
        lemma_recipe_text_push(hashes.drop_first(), h);
        assert(hashes.push(h)[0] == hashes[0]);
        assert(recipe_line(hashes[0]) + (recipe_text(hashes.drop_first()) + recipe_line(h))
            =~= (recipe_line(hashes[0]) + recipe_text(hashes.drop_first())) + recipe_line(h));
    }
}

proof fn lemma_names_distinct(g: Seq<char>, h: Seq<char>)
    requires
        is_hex_name(g),
        is_hex_name(h),
    ensures
        g != compressed_name(h),
        g != h ==> compressed_name(g) != compressed_name(h),
{
    reveal_strlit(".zst");
    assert(zst_ext().len() == 4);
    assert(compressed_name(h).len() == 20);
    if g != h && compressed_name(g) == compressed_name(h) {
        assert(g =~= compressed_name(g).subrange(0, 16));
        assert(h =~= compressed_name(h).subrange(0, 16));
    }
}

/// Writing the chunk file of `h` leaves what a restore reads for any other
/// chunk name as it was.
proof fn lemma_store_other(
    dir: Map<Seq<char>, Seq<u8>>,
    h: Seq<char>,
    name: Seq<char>,
    bytes: Seq<u8>,
    g: Seq<char>,
)
    requires
        is_hex_name(g),
        is_hex_name(h),
        g != h,
        name == h || name == compressed_name(h),
    ensures
        stored_chunk(dir.insert(name, bytes), g) == stored_chunk(dir, g),
        chunk_present(dir.insert(name, bytes), g) == chunk_present(dir, g),
{
    lemma_names_distinct(g, h);
    lemma_names_distinct(h, g);
}

proof fn lemma_restore_chunks(dir: Map<Seq<char>, Seq<u8>>, blocks: Seq<Seq<u8>>)
    requires
        forall|i: int|
            0 <= i < blocks.len() ==> stored_chunk(dir, #[trigger] block_hash(blocks[i])) == Some(
                padded(blocks[i]),
            ),
    ensures
        restore_chunks(dir, hashes_of(blocks)) == Some(padded_all(blocks)),
    decreases blocks.len(),
{
    if blocks.len() == 0 {
        assert(hashes_of(blocks) =~= Seq::<Seq<char>>::empty());
        assert(padded_all(blocks) =~= Seq::<Seq<u8>>::empty());
    } else {
        let rest = blocks.drop_first();
        assert(hashes_of(blocks).drop_first() =~= hashes_of(rest));
        assert(padded_all(blocks).drop_first() =~= padded_all(rest));
        assert forall|i: int| 0 <= i < rest.len() implies stored_chunk(dir, #[trigger] block_hash(rest[i]))
            == Some(padded(rest[i])) by {
            assert(rest[i] == blocks[i + 1]);
        }
        lemma_restore_chunks(dir, rest);
        assert(hashes_of(blocks)[0] == block_hash(blocks[0]));
        assert(stored_chunk(dir, block_hash(blocks[0])) == Some(padded(blocks[0])));
        assert(seq![padded(blocks[0])] + padded_all(rest) =~= padded_all(blocks));
    }
}

proof fn lemma_file_blocks(data: Seq<u8>)
    ensures
        full_blocks(file_blocks(data)),
        file_blocks(data).flatten() == data,
        file_blocks(data).len() > 0 ==> BLOCK_SIZE - file_blocks(data).last().len() == padding_len(data.len()),
        file_blocks(data).len() == 0 <==> data.len() == 0,
    decreases data.len(),
{
    let bs = file_blocks(data);
    if data.len() == 0 {
    } else if data.len() <= BLOCK_SIZE {
        assert(bs.drop_first() =~= Seq::<Seq<u8>>::empty());
        assert(bs.flatten() == data + bs.drop_first().flatten());
        assert(data + Seq::<u8>::empty() =~= data);
        if data.len() == BLOCK_SIZE {
            assert(data.len() % (BLOCK_SIZE as nat) == 0);
        } else {
            assert(data.len() % (BLOCK_SIZE as nat) == data.len());
        }
    } else {
        let head = data.take(BLOCK_SIZE as int);
        let tail = data.skip(BLOCK_SIZE as int);
        let rest = file_blocks(tail);
        lemma_file_blocks(tail);
        assert(bs == seq![head] + rest);
        assert(bs.drop_first() =~= rest);
        assert(bs[0] == head);
        assert(bs.flatten() == head + rest.flatten());
        assert(head + tail =~= data);
        assert(forall|i: int| 0 < i < bs.len() ==> bs[i] == rest[i - 1]);
        assert(tail.len() % (BLOCK_SIZE as nat) == data.len() % (BLOCK_SIZE as nat)) by {
            assert(data.len() == tail.len() + BLOCK_SIZE);
        }
        assert(bs.last() == rest.last());
    }
}

/// A run's chunks, padded, laid end to end: the listed blocks followed by the
/// zeros that pad the last one.
proof fn lemma_padded_flatten(bs: Seq<Seq<u8>>)
    requires
        full_blocks(bs),
    ensures
        padded_all(bs).flatten() == bs.flatten() + (if bs.len() == 0 {
            Seq::<u8>::empty()
        } else {
            zeros((BLOCK_SIZE - bs.last().len()) as nat)
        }),
    decreases bs.len(),
{
    if bs.len() == 0 {
        assert(padded_all(bs) =~= Seq::<Seq<u8>>::empty());
        assert(Seq::<u8>::empty() + Seq::<u8>::empty() =~= Seq::<u8>::empty());
    } else {
        let rest = bs.drop_first();
        assert(padded_all(bs).drop_first() =~= padded_all(rest));
        assert(padded_all(bs)[0] == padded(bs[0]));
        assert(padded_all(bs).flatten() == padded(bs[0]) + padded_all(rest).flatten());
        assert(bs.flatten() == bs[0] + rest.flatten());
        if bs.len() == 1 {
            assert(rest =~= Seq::<Seq<u8>>::empty());
            assert(padded_all(rest) =~= Seq::<Seq<u8>>::empty());
            assert(padded(bs[0]) + Seq::<u8>::empty() =~= padded(bs[0]));
            assert(bs[0] + Seq::<u8>::empty() =~= bs[0]);
        } else {
            assert forall|i: int| 0 <= i < rest.len() implies 0 < #[trigger] rest[i].len() <= BLOCK_SIZE by {
                assert(rest[i] == bs[i + 1]);
            }
            assert forall|i: int| 0 <= i < rest.len() - 1 implies #[trigger] rest[i].len() == BLOCK_SIZE by {
                assert(rest[i] == bs[i + 1]);
            }
            lemma_padded_flatten(rest);
            assert(bs[0].len() == BLOCK_SIZE);
            assert(padded(bs[0]) =~= bs[0]);
            assert(rest.last() == bs.last());
            assert(bs[0] + (rest.flatten() + zeros((BLOCK_SIZE - bs.last().len()) as nat)) =~= (bs[0]
                + rest.flatten()) + zeros((BLOCK_SIZE - bs.last().len()) as nat));
        }
    }
}

/// What holds of every run: the recipe lists the blocks `done`, and the
/// store holds a chunk under each of their names.
spec fn listed_invariant(m: BackupModel, done: Seq<Seq<u8>>) -> bool {
    &&& m.recipe == recipe_text(hashes_of(done))
    &&& forall|i: int| 0 <= i < done.len() ==> chunk_present(m.dir, #[trigger] block_hash(done[i]))
}

proof fn lemma_listed_run(m: BackupModel, done: Seq<Seq<u8>>, todo: Seq<Seq<u8>>)
    requires
        listed_invariant(m, done),
    ensures
        listed_prefix(m, todo) <= todo.len(),
        listed_invariant(model_run(m, todo), done + todo.take(listed_prefix(m, todo) as int)),
        !model_run(m, todo).session.stopped ==> listed_prefix(m, todo) == todo.len(),
        forall|k: Seq<char>| m.dir.contains_key(k) ==> #[trigger] model_run(m, todo).dir.contains_key(k),
    decreases todo.len(),
{
    if todo.len() == 0 || m.session.stopped {
        assert(todo.take(0) =~= Seq::<Seq<u8>>::empty());
        assert(done + todo.take(0) =~= done);
    } else {
        let b = todo[0];
        let h = block_hash(b);
        let m2 = model_block(m, b);
        let rest = todo.drop_first();
        assert(model_run(m, todo) == model_run(m2, rest));
        if m2.session.stopped {
            assert(model_run(m2, rest) == m2);
            assert(todo.take(0) =~= Seq::<Seq<u8>>::empty());
            assert(done + todo.take(0) =~= done);
            assert(m2.recipe == m.recipe);
            assert forall|i: int| 0 <= i < done.len() implies chunk_present(m2.dir, #[trigger] block_hash(done[i])) by {
                lemma_step_keeps_present(m, b, block_hash(done[i]));
            }
        } else {
            assert(hashes_of(done.push(b)) =~= hashes_of(done).push(h));
            lemma_recipe_text_push(hashes_of(done), h);
            assert(m2.recipe == m.recipe + recipe_line(h));
            assert(chunk_present(m2.dir, h));
            assert forall|i: int| 0 <= i < done.push(b).len() implies chunk_present(
                m2.dir,
                #[trigger] block_hash(done.push(b)[i]),
            ) by {
                if i < done.len() {
                    assert(done.push(b)[i] == done[i]);
                }
            }
            lemma_listed_run(m2, done.push(b), rest);
            let k = listed_prefix(m2, rest);
            assert(listed_prefix(m, todo) == 1 + k);
            assert(done.push(b) + rest.take(k as int) =~= done + todo.take(1 + k as int));
        }
    }
}

/// Every line of a backup's recipe names a chunk that is in the store, also
/// when the run stopped at the storage limit: a line is added only for a chunk
/// that was found or just stored.
pub proof fn lemma_recipe_names_stored_chunks(
    session: BackupSession,
    dir: Map<Seq<char>, Seq<u8>>,
    blocks: Seq<Seq<u8>>,
)
    ensures
        ({
            let r = model_run(BackupModel { session, dir, recipe: Seq::empty() }, blocks);
            let names = recipe_parts(finished_recipe(r)).0;
            forall|i: int| 0 <= i < names.len() ==> chunk_present(r.dir, #[trigger] names[i])
        }),
{
    let m = BackupModel { session, dir, recipe: Seq::empty() };
    let none = Seq::<Seq<u8>>::empty();
    assert(hashes_of(none) =~= Seq::<Seq<char>>::empty());
    lemma_listed_run(m, none, blocks);
    let r = model_run(m, blocks);
    let done = none + blocks.take(listed_prefix(m, blocks) as int);
    lemma_finished_recipe_parts(done, r.session.listed_bytes);
    let names = recipe_parts(finished_recipe(r)).0;
    assert forall|i: int| 0 <= i < names.len() implies chunk_present(r.dir, #[trigger] names[i]) by {
        assert(names[i] == block_hash(done[i]));
    }
}

/// The recipe a run writes reads back as the names of the listed blocks and
/// the number of bytes it records.
proof fn lemma_finished_recipe_parts(done: Seq<Seq<u8>>, n: u64)
    ensures
        recipe_parts(recipe_text(hashes_of(done)) + size_line(n)) == (hashes_of(done), Some(n)),
{
    let hs = hashes_of(done);
    let t = size_text(n);
    reveal_strlit("size ");
    lemma_hex16_is_hex_name(n);
    assert(size_line(n) == recipe_line(t));
    lemma_recipe_text_push(hs, t);
    let all = hs.push(t);
    assert(line_safe(all)) by {
        assert forall|i: int| 0 <= i < all.len() implies #[trigger] all[i].len() > 0 by {
            if i < hs.len() {
                lemma_block_hash_shape(done[i]);
            }
        }
        assert forall|i: int, k: int|
            0 <= i < all.len() && 0 <= k < all[i].len() implies #[trigger] all[i][k] != '\n'
            && all[i][k] != '\r' by {
            if i < hs.len() {
                lemma_block_hash_shape(done[i]);
                assert(all[i] == block_hash(done[i]));
            } else {
                assert(all[i] == t);
                if k >= 5 {
                    assert(t[k] == hex16(n)[k - 5]);
                    lemma_hex_char_not_line_end(hex16(n)[k - 5]);
                }
            }
        }
    }
    lemma_recipe_roundtrip(all);
    lemma_size_line_roundtrip(n);
    assert(all.last() == t);
    assert(all.drop_last() =~= hs);
}

/// The recipe of a run lists the bytes of the blocks `done`, and each of
/// their chunks reads back as its bytes.
spec fn exact_done(m: BackupModel, done: Seq<Seq<u8>>) -> bool {
    &&& m.session.listed_bytes == done.flatten().len()
    &&& forall|i: int|
        0 <= i < done.len() ==> stored_chunk(m.dir, #[trigger] block_hash(done[i])) == Some(
            padded(done[i]),
        )
}

/// What holds, beyond `listed_invariant`, of a run over blocks whose chunks
/// the store agrees with.
spec fn exact_invariant(m: BackupModel, done: Seq<Seq<u8>>, todo: Seq<Seq<u8>>) -> bool {
    &&& exact_done(m, done)
    &&& store_agrees(m.dir, todo)
    &&& collision_free(done + todo)
    &&& m.session.compress ==> frames_lossless(todo)
}

proof fn lemma_exact_step(m: BackupModel, done: Seq<Seq<u8>>, todo: Seq<Seq<u8>>)
    requires
        exact_invariant(m, done, todo),
        (done + todo).flatten().len() <= u64::MAX,
        todo.len() > 0,
        !model_block(m, todo[0]).session.stopped,
    ensures
        exact_invariant(model_block(m, todo[0]), done.push(todo[0]), todo.drop_first()),
{
    let b = todo[0];
    let h = block_hash(b);
    let data = padded(b);
    let rest = todo.drop_first();
    let all = done + todo;
    let m2 = model_block(m, b);
    let present = chunk_present(m.dir, h);
    lemma_block_hash_shape(b);
    assert(done.push(b) + rest =~= all);
    assert(all[done.len() as int] == b);
    assert forall|j: int| 0 <= j < rest.len() implies #[trigger] rest[j] == todo[j + 1]
        && all[done.len() + j + 1] == rest[j] by {}
    assert(done.push(b).flatten() == done.flatten() + b) by {
        done.lemma_flatten_push(b);
    }
    assert(done.push(b).flatten().len() <= all.flatten().len()) by {
        lemma_flatten_concat(done.push(b), rest);
    }
    assert(m2.session.listed_bytes == done.push(b).flatten().len());
    if present {
        assert(store_agrees(m.dir, todo));
        assert(stored_chunk(m.dir, block_hash(todo[0])) == Some(padded(todo[0])));
        assert(m2.dir == m.dir);
        assert forall|i: int| 0 <= i < done.push(b).len() implies stored_chunk(
            m2.dir,
            #[trigger] block_hash(done.push(b)[i]),
        ) == Some(padded(done.push(b)[i])) by {
            if i < done.len() {
                assert(done.push(b)[i] == done[i]);
            }
        }
        assert forall|j: int|
            0 <= j < rest.len() && chunk_present(m2.dir, #[trigger] block_hash(rest[j])) implies stored_chunk(
            m2.dir,
            block_hash(rest[j]),
        ) == Some(padded(rest[j])) by {
            assert(block_hash(todo[j + 1]) == block_hash(rest[j]));
        }
    } else {
        let name = stored_file_name(m.session.compress, h);
        let bytes = stored_form(m.session.compress, data);
        assert(m2.dir == m.dir.insert(name, bytes));
        lemma_names_distinct(h, h);
        assert(stored_chunk(m2.dir, h) == Some(data)) by {
            if m.session.compress {
                assert(frames_lossless(todo));
                assert(zstd_decoded(zstd_frame(padded(todo[0]), COMPRESSION_LEVEL)) == Some(padded(todo[0])));
            } else {
                assert(!m2.dir.contains_key(compressed_name(h)));
            }
        }
        assert forall|i: int| 0 <= i < done.push(b).len() implies stored_chunk(
            m2.dir,
            #[trigger] block_hash(done.push(b)[i]),
        ) == Some(padded(done.push(b)[i])) by {
            if i < done.len() {
                let g = block_hash(done[i]);
                assert(done.push(b)[i] == done[i]);
                lemma_block_hash_shape(done[i]);
                assert(stored_chunk(m.dir, g) == Some(padded(done[i])));
                if g == h {
                    assert(chunk_present(m.dir, g));
                } else {
                    lemma_store_other(m.dir, h, name, bytes, g);
                }
            }
        }
        assert forall|j: int|
            0 <= j < rest.len() && chunk_present(m2.dir, #[trigger] block_hash(rest[j])) implies stored_chunk(
            m2.dir,
            block_hash(rest[j]),
        ) == Some(padded(rest[j])) by {
            let g = block_hash(rest[j]);
            lemma_block_hash_shape(rest[j]);
            if g == h {
                assert(collision_free(all));
                assert(block_hash(all[done.len() + j + 1]) == block_hash(all[done.len() as int]));
                assert(padded(rest[j]) == data);
            } else {
                lemma_store_other(m.dir, h, name, bytes, g);
                assert(block_hash(todo[j + 1]) == g);
            }
        }
    }
    if m.session.compress {
        assert forall|j: int| 0 <= j < rest.len() implies zstd_decoded(
            zstd_frame(#[trigger] padded(rest[j]), COMPRESSION_LEVEL),
        ) == Some(padded(rest[j])) by {
            assert(padded(todo[j + 1]) == padded(rest[j]));
        }
    }
}

/// A step of a run leaves what a restore reads for a name already present
/// as it was: a chunk file is written only under a name not yet present.
proof fn lemma_step_keeps_present(m: BackupModel, b: Seq<u8>, g: Seq<char>)
    requires
        chunk_present(m.dir, g),
    ensures
        chunk_present(model_block(m, b).dir, g),
        stored_chunk(model_block(m, b).dir, g) == stored_chunk(m.dir, g),
{
    let h = block_hash(b);
    let m2 = model_block(m, b);
    lemma_block_hash_shape(b);
    reveal_strlit(".zst");
    assert(zst_ext() =~= seq!['.', 'z', 's', 't']);
    if !chunk_present(m.dir, h) && m2.dir != m.dir {
        let name = stored_file_name(m.session.compress, h);
        assert(m2.dir == m.dir.insert(name, stored_form(m.session.compress, padded(b))));
        assert(g != h);
        assert(compressed_name(g) != h) by {
            if compressed_name(g) == h {
                assert(compressed_name(g)[g.len() as int] == '.');
                lemma_hex_char_not_line_end(h[g.len() as int]);
            }
        }
        assert(compressed_name(g) != compressed_name(h)) by {
            if compressed_name(g) == compressed_name(h) {
                assert(compressed_name(g).len() == g.len() + 4);
                assert(compressed_name(h).len() == h.len() + 4);
                assert(g.len() == h.len());
                assert(g =~= compressed_name(g).subrange(0, g.len() as int));
                assert(h =~= compressed_name(h).subrange(0, h.len() as int));
            }
        }
        if !m.dir.contains_key(compressed_name(g)) {
            assert(m.dir.contains_key(g));
            assert(g != compressed_name(h));
        }
    }
}

/// A run leaves what a restore reads for a name already present as it was.
proof fn lemma_run_keeps_present(m: BackupModel, blocks: Seq<Seq<u8>>, g: Seq<char>)
    requires
        chunk_present(m.dir, g),
    ensures
        chunk_present(model_run(m, blocks).dir, g),
        stored_chunk(model_run(m, blocks).dir, g) == stored_chunk(m.dir, g),
    decreases blocks.len(),
{
    if blocks.len() > 0 && !m.session.stopped {
        lemma_step_keeps_present(m, blocks[0], g);
        lemma_run_keeps_present(model_block(m, blocks[0]), blocks.drop_first(), g);
    }
}

proof fn lemma_restore_chunks_same(d1: Map<Seq<char>, Seq<u8>>, d2: Map<Seq<char>, Seq<u8>>, hs: Seq<Seq<char>>)
    requires
        forall|i: int| 0 <= i < hs.len() ==> stored_chunk(d1, #[trigger] hs[i]) == stored_chunk(d2, hs[i]),
    ensures
        restore_chunks(d1, hs) == restore_chunks(d2, hs),
    decreases hs.len(),
{
    if hs.len() > 0 {
        let rest = hs.drop_first();
        assert forall|i: int| 0 <= i < rest.len() implies stored_chunk(d1, #[trigger] rest[i]) == stored_chunk(d2, rest[i]) by {
            assert(rest[i] == hs[i + 1]);
        }
        lemma_restore_chunks_same(d1, d2, rest);
        assert(stored_chunk(d1, hs[0]) == stored_chunk(d2, hs[0]));
    }
}

/// A recipe keeps restoring the same file after later backups into the same
/// repository: a backup run never changes a chunk file under a name that is
/// already present, so a recipe whose chunks are all present reads the same
/// chunks before and after.
pub proof fn lemma_restore_survives_later_backups(m: BackupModel, blocks: Seq<Seq<u8>>, recipe: Seq<char>)
    requires
        forall|i: int|
            0 <= i < recipe_parts(recipe).0.len() ==> chunk_present(m.dir, #[trigger] recipe_parts(recipe).0[i]),
    ensures
        restore_model(model_run(m, blocks).dir, recipe) == restore_model(m.dir, recipe),
{
    let hs = recipe_parts(recipe).0;
    let d2 = model_run(m, blocks).dir;
    assert forall|i: int| 0 <= i < hs.len() implies stored_chunk(d2, #[trigger] hs[i]) == stored_chunk(m.dir, hs[i]) by {
        lemma_run_keeps_present(m, blocks, hs[i]);
    }
    lemma_restore_chunks_same(d2, m.dir, hs);
}

proof fn lemma_listed_prefix_bound(m: BackupModel, todo: Seq<Seq<u8>>)
    ensures
        listed_prefix(m, todo) <= todo.len(),
    decreases todo.len(),
{
    if todo.len() > 0 && !m.session.stopped {
        lemma_listed_prefix_bound(model_block(m, todo[0]), todo.drop_first());
    }
}

proof fn lemma_exact_run(m: BackupModel, done: Seq<Seq<u8>>, todo: Seq<Seq<u8>>)
    requires
        exact_invariant(m, done, todo),
        (done + todo).flatten().len() <= u64::MAX,
    ensures
        exact_done(model_run(m, todo), done + todo.take(listed_prefix(m, todo) as int)),
    decreases todo.len(),
{
    if todo.len() == 0 || m.session.stopped {
        assert(todo.take(0) =~= Seq::<Seq<u8>>::empty());
        assert(done + todo.take(0) =~= done);
        assert(todo.skip(0) =~= todo);
    } else {
        let b = todo[0];
        let m2 = model_block(m, b);
        let rest = todo.drop_first();
        assert(model_run(m, todo) == model_run(m2, rest));
        if m2.session.stopped {
            assert(model_run(m2, rest) == m2);
            assert(todo.take(0) =~= Seq::<Seq<u8>>::empty());
            assert(done + todo.take(0) =~= done);
            assert(todo.skip(0) =~= todo);
            assert(m2.session.listed_bytes == m.session.listed_bytes);
            assert forall|i: int| 0 <= i < done.len() implies stored_chunk(m2.dir, #[trigger] block_hash(done[i]))
                == Some(padded(done[i])) by {
                lemma_step_keeps_present(m, b, block_hash(done[i]));
            }
        } else {
            lemma_exact_step(m, done, todo);
            assert(done.push(b) + rest =~= done + todo);
            lemma_exact_run(m2, done.push(b), rest);
            let k = listed_prefix(m2, rest);
            lemma_listed_prefix_bound(m2, rest);
            assert(done.push(b) + rest.take(k as int) =~= done + todo.take(1 + k as int));
        }
    }
}

proof fn lemma_full_blocks_take(bs: Seq<Seq<u8>>, k: int)
    requires
        full_blocks(bs),
        0 <= k <= bs.len(),
    ensures
        full_blocks(bs.take(k)),
        k < bs.len() ==> forall|i: int| 0 <= i < k ==> #[trigger] bs.take(k)[i].len() == BLOCK_SIZE,
{
}

/// Exact restore: restoring the recipe of a backup run writes the file back
/// byte for byte. A run stopped at the free plan's storage limit lists only
/// the blocks before the refused one, and its restore writes exactly those
/// bytes of the file.
///
/// This holds where no two different chunks of the file share a name, where
/// every chunk of the file that the store already has holds the chunk's
/// bytes, and, when compressing, where zstd gives back each chunk.
pub proof fn lemma_backup_restore_roundtrip(session: BackupSession, dir: Map<Seq<char>, Seq<u8>>, data: Seq<u8>)
    requires
        session.listed_bytes == 0,
        data.len() <= u64::MAX,
        collision_free(file_blocks(data)),
        store_agrees(dir, file_blocks(data)),
        session.compress ==> frames_lossless(file_blocks(data)),
    ensures
        ({
            let r = model_run(BackupModel { session, dir, recipe: Seq::empty() }, file_blocks(data));
            &&& r.session.listed_bytes <= data.len()
            &&& restore_model(r.dir, finished_recipe(r)) == Some(data.take(r.session.listed_bytes as int))
            &&& !r.session.stopped ==> restore_model(r.dir, finished_recipe(r)) == Some(data)
        }),
{
    let bs = file_blocks(data);
    let m = BackupModel { session, dir, recipe: Seq::empty() };
    let none = Seq::<Seq<u8>>::empty();
    lemma_file_blocks(data);
    assert(hashes_of(none) =~= Seq::<Seq<char>>::empty());
    assert(none + bs =~= bs);
    assert(none.flatten() =~= Seq::<u8>::empty());
    lemma_listed_run(m, none, bs);
    lemma_exact_run(m, none, bs);
    let r = model_run(m, bs);
    let k = listed_prefix(m, bs) as int;
    let done = none + bs.take(k);
    assert(done =~= bs.take(k));
    lemma_flatten_concat(bs.take(k), bs.skip(k));
    assert(bs.take(k) + bs.skip(k) =~= bs);
    let listed = done.flatten();
    assert(listed =~= data.take(listed.len() as int));
    assert(r.session.listed_bytes == listed.len());
    lemma_finished_recipe_parts(done, r.session.listed_bytes);
    assert(finished_recipe(r) == recipe_text(hashes_of(done)) + size_line(r.session.listed_bytes));
    lemma_restore_chunks(r.dir, done);
    lemma_full_blocks_take(bs, k);
    lemma_padded_flatten(done);
    let chunks = padded_all(done);
    lemma_sized_restore(chunks, listed.len());
    assert(chunks.flatten().take(listed.len() as int) =~= listed);
    if !r.session.stopped {
        assert(k == bs.len());
        assert(bs.take(k) =~= bs);
        assert(data.take(data.len() as int) =~= data);
    }
}

/// A completed backup's chunks, read in recipe order and laid end to end
/// without trimming, are the file followed by the zeros that pad its last
/// block to a full chunk.
pub proof fn lemma_chunks_are_file_and_padding(session: BackupSession, dir: Map<Seq<char>, Seq<u8>>, data: Seq<u8>)
    requires
        session.listed_bytes == 0,
        data.len() <= u64::MAX,
        collision_free(file_blocks(data)),
        store_agrees(dir, file_blocks(data)),
        session.compress ==> frames_lossless(file_blocks(data)),
        !model_run(BackupModel { session, dir, recipe: Seq::empty() }, file_blocks(data)).session.stopped,
    ensures
        ({
            let r = model_run(BackupModel { session, dir, recipe: Seq::empty() }, file_blocks(data));
            restore_chunks(r.dir, recipe_parts(finished_recipe(r)).0) matches Some(chunks)
                && chunks.flatten() == data + zeros(padding_len(data.len()))
        }),
{
    let bs = file_blocks(data);
    let m = BackupModel { session, dir, recipe: Seq::empty() };
    let none = Seq::<Seq<u8>>::empty();
    lemma_file_blocks(data);
    assert(hashes_of(none) =~= Seq::<Seq<char>>::empty());
    assert(none + bs =~= bs);
    assert(none.flatten() =~= Seq::<u8>::empty());
    lemma_listed_run(m, none, bs);
    lemma_exact_run(m, none, bs);
    let r = model_run(m, bs);
    let k = listed_prefix(m, bs) as int;
    assert(k == bs.len());
    assert(none + bs.take(k) =~= bs);
    lemma_finished_recipe_parts(bs, r.session.listed_bytes);
    lemma_restore_chunks(r.dir, bs);
    lemma_padded_flatten(bs);
    if bs.len() == 0 {
        assert(padding_len(0) == 0);
        assert(data + zeros(0) =~= data);
        assert(Seq::<u8>::empty() + Seq::<u8>::empty() =~= Seq::<u8>::empty());
    }
}

/// Every block of a run that is not stopped is counted once, as stored or as
/// reused, and the logical byte counter grows by the file's length.
pub proof fn lemma_run_counts(m: BackupModel, blocks: Seq<Seq<u8>>)
    requires
        m.session.metrics.logical_bytes + blocks.flatten().len() <= u64::MAX,
        m.session.new_chunks + m.session.dedup_chunks + blocks.len() <= u64::MAX,
        !model_run(m, blocks).session.stopped,
    ensures
        model_run(m, blocks).session.metrics.logical_bytes == m.session.metrics.logical_bytes
            + blocks.flatten().len(),
        model_run(m, blocks).session.new_chunks + model_run(m, blocks).session.dedup_chunks
            == m.session.new_chunks + m.session.dedup_chunks + blocks.len(),
    decreases blocks.len(),
{
    if blocks.len() > 0 {
        let m2 = model_block(m, blocks[0]);
        let rest = blocks.drop_first();
        assert(!m.session.stopped);
        assert(model_run(m, blocks) == model_run(m2, rest));
        if m2.session.stopped {
            assert(model_run(m2, rest) == m2);
        }
        assert(blocks.flatten() == blocks.first() + rest.flatten());
        assert(m2.session.metrics.logical_bytes == m.session.metrics.logical_bytes + blocks[0].len());
        assert(m2.session.new_chunks + m2.session.dedup_chunks == m.session.new_chunks
            + m.session.dedup_chunks + 1);
        lemma_run_counts(m2, rest);
    }
}

/// Up to 1 GiB on the free plan: a free-plan run that starts within the
/// storage limit ends within it.
pub proof fn lemma_free_limit_kept(m: BackupModel, blocks: Seq<Seq<u8>>)
    requires
        m.session.is_free,
        m.session.metrics.stored_bytes <= FREE_MAX_REPO_SIZE,
    ensures
        model_run(m, blocks).session.metrics.stored_bytes <= FREE_MAX_REPO_SIZE,
    decreases blocks.len(),
{
    if blocks.len() > 0 && !m.session.stopped {
        lemma_free_limit_kept(model_block(m, blocks[0]), blocks.drop_first());
    }
}

proof fn lemma_run_over_present(m: BackupModel, blocks: Seq<Seq<u8>>)
    requires
        !m.session.stopped,
        forall|i: int| 0 <= i < blocks.len() ==> chunk_present(m.dir, #[trigger] block_hash(blocks[i])),
    ensures
        model_run(m, blocks).dir == m.dir,
        model_run(m, blocks).session.new_chunks == m.session.new_chunks,
        model_run(m, blocks).session.metrics.stored_bytes == m.session.metrics.stored_bytes,
        !model_run(m, blocks).session.stopped,
    decreases blocks.len(),
{
    if blocks.len() > 0 {
        let m2 = model_block(m, blocks[0]);
        let rest = blocks.drop_first();
        assert(chunk_present(m.dir, block_hash(blocks[0])));
        assert forall|i: int| 0 <= i < rest.len() implies chunk_present(m2.dir, #[trigger] block_hash(rest[i])) by {
            assert(rest[i] == blocks[i + 1]);
        }
        lemma_run_over_present(m2, rest);
    }
}

/// Only new blocks are stored: backing a file up again right after a backup
/// of it that was not stopped writes no chunk and stores no byte.
pub proof fn lemma_repeat_backup_stores_nothing(
    m: BackupModel,
    blocks: Seq<Seq<u8>>,
    again: BackupSession,
)
    requires
        !model_run(m, blocks).session.stopped,
        !again.stopped,
    ensures
        ({
            let first = model_run(m, blocks);
            let second = model_run(BackupModel { session: again, dir: first.dir, recipe: Seq::empty() }, blocks);
            &&& second.dir == first.dir
            &&& second.session.new_chunks == again.new_chunks
            &&& second.session.metrics.stored_bytes == again.metrics.stored_bytes
        }),
{
    let start = BackupModel { session: m.session, dir: m.dir, recipe: Seq::empty() };
    let none = Seq::<Seq<u8>>::empty();
    assert(hashes_of(none) =~= Seq::<Seq<char>>::empty());
    lemma_listed_run(start, none, blocks);
    assert(model_run(start, blocks).dir == model_run(m, blocks).dir && model_run(start, blocks).session
        == model_run(m, blocks).session) by {
        lemma_run_ignores_recipe(m, start, blocks);
    }
    let first = model_run(m, blocks);
    assert(none + blocks.take(blocks.len() as int) =~= blocks);
    lemma_run_over_present(BackupModel { session: again, dir: first.dir, recipe: Seq::empty() }, blocks);
}

proof fn lemma_run_ignores_recipe(m: BackupModel, n: BackupModel, blocks: Seq<Seq<u8>>)
    requires
        m.session == n.session,
        m.dir == n.dir,
    ensures
        model_run(m, blocks).session == model_run(n, blocks).session,
        model_run(m, blocks).dir == model_run(n, blocks).dir,
    decreases blocks.len(),
{
    if blocks.len() > 0 && !m.session.stopped {
        lemma_run_ignores_recipe(model_block(m, blocks[0]), model_block(n, blocks[0]), blocks.drop_first());
    }
}
/// A recipe determines its file: of two completed backups into the same
/// repository, one after the other, the same recipe means the same file.
pub proof fn lemma_same_recipe_same_file(
    first: BackupSession,
    dir: Map<Seq<char>, Seq<u8>>,
    data1: Seq<u8>,
    second: BackupSession,
    data2: Seq<u8>,
)
    requires
        first.listed_bytes == 0,
        data1.len() <= u64::MAX,
        collision_free(file_blocks(data1)),
        store_agrees(dir, file_blocks(data1)),
        first.compress ==> frames_lossless(file_blocks(data1)),
        !model_run(BackupModel { session: first, dir, recipe: Seq::empty() }, file_blocks(data1)).session.stopped,
        second.listed_bytes == 0,
        data2.len() <= u64::MAX,
        collision_free(file_blocks(data2)),
        store_agrees(
            model_run(BackupModel { session: first, dir, recipe: Seq::empty() }, file_blocks(data1)).dir,
            file_blocks(data2),
        ),
        second.compress ==> frames_lossless(file_blocks(data2)),
        !model_run(
            BackupModel {
                session: second,
                dir: model_run(BackupModel { session: first, dir, recipe: Seq::empty() }, file_blocks(data1)).dir,
                recipe: Seq::empty(),
            },
            file_blocks(data2),
        ).session.stopped,
        finished_recipe(model_run(BackupModel { session: first, dir, recipe: Seq::empty() }, file_blocks(data1)))
            == finished_recipe(
            model_run(
                BackupModel {
                    session: second,
                    dir: model_run(BackupModel { session: first, dir, recipe: Seq::empty() }, file_blocks(data1)).dir,
                    recipe: Seq::empty(),
                },
                file_blocks(data2),
            ),
        ),
    ensures
        data1 == data2,
{
    let r1 = model_run(BackupModel { session: first, dir, recipe: Seq::empty() }, file_blocks(data1));
    let m2 = BackupModel { session: second, dir: r1.dir, recipe: Seq::empty() };
    let r2 = model_run(m2, file_blocks(data2));
    let recipe = finished_recipe(r1);
    lemma_backup_restore_roundtrip(first, dir, data1);
    lemma_recipe_names_stored_chunks(first, dir, file_blocks(data1));
    lemma_restore_survives_later_backups(m2, file_blocks(data2), recipe);
    lemma_backup_restore_roundtrip(second, r1.dir, data2);
    assert(restore_model(r2.dir, recipe) == Some(data1));
    assert(restore_model(r2.dir, finished_recipe(r2)) == Some(data2));
}

proof fn lemma_step_storage(m: BackupModel, b: Seq<u8>)
    requires
        m.dir.dom().finite(),
        !m.session.stopped,
        m.session.new_chunks < u64::MAX,
        !m.session.compress ==> m.session.metrics.stored_bytes + BLOCK_SIZE <= u64::MAX,
        b.len() <= BLOCK_SIZE,
    ensures
        model_block(m, b).dir.dom().finite(),
        model_block(m, b).session.new_chunks == m.session.new_chunks ==> model_block(m, b).dir == m.dir
            && model_block(m, b).session.metrics.stored_bytes == m.session.metrics.stored_bytes,
        model_block(m, b).session.new_chunks != m.session.new_chunks ==> model_block(m, b).session.new_chunks
            == m.session.new_chunks + 1 && model_block(m, b).dir.dom().len() == m.dir.dom().len() + 1
            && (!m.session.compress ==> model_block(m, b).session.metrics.stored_bytes
            == m.session.metrics.stored_bytes + BLOCK_SIZE),
        model_block(m, b).session.compress == m.session.compress,
{
    let h = block_hash(b);
    let m2 = model_block(m, b);
    if !chunk_present(m.dir, h) && m2.session.new_chunks != m.session.new_chunks {
        let name = stored_file_name(m.session.compress, h);
        assert(!m.dir.contains_key(name));
        assert(m2.dir.dom() =~= m.dir.dom().insert(name));
        assert(padded(b).len() == BLOCK_SIZE);
    }
}

/// Each chunk a run stores is a new file in the store, and without
/// compression each one adds exactly `BLOCK_SIZE` stored bytes.
pub proof fn lemma_run_storage(m: BackupModel, blocks: Seq<Seq<u8>>)
    requires
        m.dir.dom().finite(),
        forall|i: int| 0 <= i < blocks.len() ==> #[trigger] blocks[i].len() <= BLOCK_SIZE,
        m.session.new_chunks + blocks.len() <= u64::MAX,
        !m.session.compress ==> m.session.metrics.stored_bytes + BLOCK_SIZE * blocks.len() <= u64::MAX,
    ensures
        model_run(m, blocks).dir.dom().finite(),
        model_run(m, blocks).session.new_chunks - m.session.new_chunks == model_run(m, blocks).dir.dom().len()
            - m.dir.dom().len(),
        model_run(m, blocks).session.new_chunks - m.session.new_chunks <= blocks.len(),
        !m.session.compress ==> model_run(m, blocks).session.metrics.stored_bytes == m.session.metrics.stored_bytes
            + BLOCK_SIZE * (model_run(m, blocks).session.new_chunks - m.session.new_chunks),
    decreases blocks.len(),
{
    if blocks.len() > 0 && !m.session.stopped {
        let b = blocks[0];
        let m2 = model_block(m, b);
        let rest = blocks.drop_first();
        lemma_step_storage(m, b);
        assert(BLOCK_SIZE * blocks.len() == BLOCK_SIZE + BLOCK_SIZE * rest.len());
        assert forall|i: int| 0 <= i < rest.len() implies #[trigger] rest[i].len() <= BLOCK_SIZE by {
            assert(rest[i] == blocks[i + 1]);
        }
        lemma_run_storage(m2, rest);
        assert(model_run(m, blocks) == model_run(m2, rest));
    }
}

/// A recipe without a size line, as the original tool writes them (chunk
/// names only), reads as the names it lists and no size, so its restore
/// trims the padding of the last chunk rather than cutting to a size.
pub proof fn lemma_sizeless_recipe(hashes: Seq<Seq<char>>)
    requires
        forall|i: int| 0 <= i < hashes.len() ==> is_hex_name(#[trigger] hashes[i]),
    ensures
        recipe_parts(recipe_text(hashes)) == (hashes, None::<u64>),
{
    assert(line_safe(hashes)) by {
        assert forall|i: int, k: int|
            0 <= i < hashes.len() && 0 <= k < hashes[i].len() implies #[trigger] hashes[i][k] != '\n'
            && hashes[i][k] != '\r' by {
            assert(is_hex_name(hashes[i]));
            lemma_hex_char_not_line_end(hashes[i][k]);
        }
    }
    lemma_recipe_roundtrip(hashes);
    if hashes.len() > 0 {
        let last = hashes.last();
        assert(is_hex_name(hashes[hashes.len() - 1]));
        reveal_strlit("size ");
        lemma_hex_char_not_line_end(last[0]);
        assert(size_prefix()[0] == 's');
        assert(!has_prefix(last, size_prefix())) by {
            if has_prefix(last, size_prefix()) {
                assert(last.take(5)[0] == last[0]);
            }
        }
    }
}

/// The stored-bytes counter follows the chunk files a step writes: it grows
/// by exactly the size of the file written, compressed or not (counted like
/// the `u64` counter), and stays as it was when no file is written.
pub proof fn lemma_stored_bytes_count_written_files(m: BackupModel, b: Seq<u8>)
    requires
        !m.session.stopped,
    ensures
        model_block(m, b).dir == m.dir ==> model_block(m, b).session.metrics.stored_bytes
            == m.session.metrics.stored_bytes,
        model_block(m, b).dir != m.dir ==> exists|name: Seq<char>|
            !m.dir.contains_key(name) && model_block(m, b).dir == m.dir.insert(name, model_block(m, b).dir[name])
                && model_block(m, b).session.metrics.stored_bytes == (m.session.metrics.stored_bytes
                + model_block(m, b).dir[name].len()) as u64,
{
    let h = block_hash(b);
    let m2 = model_block(m, b);
    if m2.dir != m.dir {
        let name = stored_file_name(m.session.compress, h);
        assert(!chunk_present(m.dir, h));
        assert(!m.dir.contains_key(name));
        assert(m2.dir == m.dir.insert(name, m2.dir[name]));
    }
}

} // verus!
