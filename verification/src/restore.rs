//! Restoring a file from its recipe: reading the recipe's chunk names and the
//! file size, finding each chunk in the repository, and cutting the chunks to
//! the recorded size (recipes written without a size have the zeros at the
//! end of their last chunk trimmed instead).

use vstd::prelude::*;
use crate::chunk::{trim_trailing_zeros, strip_trailing_zeros};
use crate::compress::{zstd_decoded, decode_frame};
use crate::text::{chars_of, string_from_chars};
use crate::naming::{size_value, parse_size_line};

verus! {

/// A line without the `\r` of a `\r\n` ending.
pub open spec fn strip_cr(line: Seq<char>) -> Seq<char> {
    if line.len() > 0 && line.last() == '\r' {
        line.drop_last()
    } else {
        line
    }
}

/// The non-empty lines of `text`, where `cur` is the part of the current line
/// already read. Lines end at `\n`, and a `\r` just before it is dropped; a
/// last line without `\n` is kept as it is.
pub open spec fn recipe_lines_from(text: Seq<char>, cur: Seq<char>) -> Seq<Seq<char>>
    decreases text.len(),
{
    if text.len() == 0 {
        if cur.len() > 0 {
            seq![cur]
        } else {
            Seq::empty()
        }
    } else if text[0] == '\n' {
        let line = strip_cr(cur);
        if line.len() > 0 {
            seq![line] + recipe_lines_from(text.drop_first(), Seq::empty())
        } else {
            recipe_lines_from(text.drop_first(), Seq::empty())
        }
    } else {
        recipe_lines_from(text.drop_first(), cur.push(text[0]))
    }
}

/// The non-empty lines of a recipe, in order.
pub open spec fn recipe_lines(text: Seq<char>) -> Seq<Seq<char>> {
    recipe_lines_from(text, Seq::empty())
}

/// What a recipe says: the chunk names it lists, in order, and the number of
/// bytes of the file when its last line is a size line.
pub open spec fn recipe_parts(text: Seq<char>) -> (Seq<Seq<char>>, Option<u64>) {
    let lines = recipe_lines(text);
    if lines.len() > 0 && size_value(lines.last()) is Some {
        (lines.drop_last(), size_value(lines.last()))
    } else {
        (lines, None)
    }
}

/// A recipe as read: its chunk names and, for a recipe closed by a size
/// line, the number of bytes of the file.
pub struct Recipe {
    pub hashes: Vec<String>,
    pub size: Option<u64>,
}

/// The views of a list of strings.
pub open spec fn views(v: Seq<String>) -> Seq<Seq<char>> {
    v.map_values(|s: String| s@)
}

/// Reads the recipe `content`: its chunk names in order, empty lines left
/// out, and the size its last line records, if it is a size line.
pub fn parse_recipe(content: &str) -> (r: Recipe)
    ensures
        views(r.hashes@) == recipe_parts(content@).0,
        r.size == recipe_parts(content@).1,
{
    let mut lines = nonempty_lines(content);
    let n = lines.len();
    if n > 0 {
        let size = parse_size_line(lines[n - 1].as_str());
        if size.is_some() {
            let ghost all = lines@;
            let _ = lines.pop();
            assert(views(lines@) =~= views(all).drop_last());
            return Recipe { hashes: lines, size };
        }
    }
    Recipe { hashes: lines, size: None }
}

/// The non-empty lines of `content`, in order.
fn nonempty_lines(content: &str) -> (hashes: Vec<String>)
    ensures
        views(hashes@) == recipe_lines(content@),
{
    let cs = chars_of(content);
    let n = cs.len();
    let mut out: Vec<String> = Vec::new();
    let mut cur: Vec<char> = Vec::new();
    assert(cs@.skip(0) == cs@);
    assert(views(out@) == Seq::<Seq<char>>::empty());
    for i in 0..n
        invariant
            n == cs@.len(),
            cs@ == content@,
            recipe_lines(content@) == views(out@) + recipe_lines_from(cs@.skip(i as int), cur@),
    {
        let ghost rest = cs@.skip(i as int);
        assert(rest[0] == cs@[i as int]);
        assert(rest.drop_first() == cs@.skip(i + 1));
        if cs[i] == '\n' {
            let ghost before = cur@;
            let len = cur.len();
            if len > 0 && cur[len - 1] == '\r' {
                let _ = cur.pop();
            }
            assert(cur@ == strip_cr(before));
            if cur.len() > 0 {
                let line = string_from_chars(&cur);
                let ghost old_out = out@;
                out.push(line);
                assert(views(out@) == views(old_out).push(line@));
                assert(views(out@) + recipe_lines_from(cs@.skip(i + 1), Seq::empty())
                    == views(old_out) + (seq![cur@] + recipe_lines_from(cs@.skip(i + 1), Seq::empty())));
            }
            cur = Vec::new();
        } else {
            cur.push(cs[i]);
        }
    }
    if cur.len() > 0 {
        let line = string_from_chars(&cur);
        let ghost old_out = out@;
        out.push(line);
        assert(views(out@) == views(old_out).push(line@));
    }
    assert(views(out@) == views(out@) + Seq::<Seq<char>>::empty());
    out
}

/// The restored file made of `chunks`: all of them in order, the last one
/// without its trailing zero bytes.
pub open spec fn assemble(chunks: Seq<Seq<u8>>) -> Seq<u8>
    decreases chunks.len(),
{
    if chunks.len() == 0 {
        Seq::empty()
    } else if chunks.len() == 1 {
        trim_trailing_zeros(chunks[0])
    } else {
        chunks[0] + assemble(chunks.drop_first())
    }
}

/// What is written for the chunk at `index` of `count`: the chunk itself, or,
/// for the last one, the chunk without its trailing zero bytes.
pub open spec fn restored_piece(chunk: Seq<u8>, index: int, count: int) -> Seq<u8> {
    if index == count - 1 {
        trim_trailing_zeros(chunk)
    } else {
        chunk
    }
}

/// The restored file as written piece by piece: each chunk prepared by
/// `restore_piece` for its index, in order.
pub open spec fn restored_pieces(chunks: Seq<Seq<u8>>) -> Seq<u8> {
    Seq::new(chunks.len(), |i: int| restored_piece(chunks[i], i, chunks.len() as int)).flatten()
}

/// Writing the pieces one after another, as a restore does, gives the
/// assembled file: every chunk in order, only the last one trimmed.
pub proof fn lemma_pieces_assemble(chunks: Seq<Seq<u8>>)
    ensures
        restored_pieces(chunks) == assemble(chunks),
    decreases chunks.len(),
{
    let n = chunks.len() as int;
    let ps = Seq::new(chunks.len(), |i: int| restored_piece(chunks[i], i, n));
    if n == 1 {
        assert(ps.drop_first() =~= Seq::<Seq<u8>>::empty());
        assert(ps.flatten() == ps[0] + ps.drop_first().flatten());
        assert(ps[0] + Seq::<u8>::empty() =~= ps[0]);
    } else if n > 1 {
        let rest = chunks.drop_first();
        lemma_pieces_assemble(rest);
        assert(ps.drop_first() =~= Seq::new(rest.len(), |i: int| restored_piece(rest[i], i, rest.len() as int)));
        assert(ps.flatten() == ps[0] + ps.drop_first().flatten());
        assert(ps[0] == chunks[0]);
    }
}

/// What is written for a chunk when `remaining` bytes of the file are still
/// to be written: the chunk, cut to that many bytes.
pub open spec fn sized_piece(chunk: Seq<u8>, remaining: nat) -> Seq<u8> {
    if chunk.len() <= remaining {
        chunk
    } else {
        chunk.take(remaining as int)
    }
}

/// The file restored from `chunks` for a recipe recording `remaining` bytes:
/// each chunk cut to what is still to be written, in order.
pub open spec fn sized_restore(chunks: Seq<Seq<u8>>, remaining: nat) -> Seq<u8>
    decreases chunks.len(),
{
    if chunks.len() == 0 {
        Seq::empty()
    } else {
        let p = sized_piece(chunks[0], remaining);
        p + sized_restore(chunks.drop_first(), (remaining - p.len()) as nat)
    }
}

/// Restoring by size writes the chunks in order and stops after the
/// recorded number of bytes: only the padding after them is left out.
pub proof fn lemma_sized_restore(chunks: Seq<Seq<u8>>, n: nat)
    ensures
        sized_restore(chunks, n) == if n <= chunks.flatten().len() {
            chunks.flatten().take(n as int)
        } else {
            chunks.flatten()
        },
    decreases chunks.len(),
{
    if chunks.len() > 0 {
        let c = chunks[0];
        let rest = chunks.drop_first();
        let p = sized_piece(c, n);
        lemma_sized_restore(rest, (n - p.len()) as nat);
        assert(chunks.flatten() == c + rest.flatten());
        let f = chunks.flatten();
        if c.len() <= n {
            if n <= f.len() {
                assert(f.take(n as int) =~= c + rest.flatten().take(n - c.len()));
            }
        } else {
            assert(f.take(n as int) =~= c.take(n as int));
            assert(rest.flatten().take(0) =~= Seq::<u8>::empty());
            assert(c.take(n as int) + Seq::<u8>::empty() =~= c.take(n as int));
        }
    }
}

/// The piece of a chunk that is written when `remaining` bytes of the file
/// are still to be written.
pub fn restore_sized_piece(chunk: Vec<u8>, remaining: u64) -> (piece: Vec<u8>)
    ensures
        piece@ == sized_piece(chunk@, remaining as nat),
{
    let mut piece = chunk;
    if piece.len() as u64 > remaining {
        piece.truncate(remaining as usize);
    }
    piece
}

/// For a recipe without a size line (written before sizes were recorded):
/// prepares the chunk at `index` of `count` for writing to the restored file.
pub fn restore_piece(chunk: Vec<u8>, index: usize, count: usize) -> (piece: Vec<u8>)
    requires
        index < count,
    ensures
        piece@ == restored_piece(chunk@, index as int, count as int),
{
    if index == count - 1 {
        strip_trailing_zeros(chunk)
    } else {
        chunk
    }
}

/// Where a chunk is read from.
#[derive(Clone, Copy, Debug, PartialEq, Eq, Structural)]
pub enum ChunkSource {
    /// The `.zst` file, decompressed.
    Compressed,
    /// The plain file.
    Plain,
    /// Neither file exists: the backup is corrupted.
    Missing,
}

/// Chooses the file to read a chunk from: the compressed one when it exists,
/// else the plain one.
pub fn choose_chunk_source(zst_exists: bool, plain_exists: bool) -> (src: ChunkSource)
    ensures
        zst_exists ==> src == ChunkSource::Compressed,
        !zst_exists && plain_exists ==> src == ChunkSource::Plain,
        !zst_exists && !plain_exists ==> src == ChunkSource::Missing,
{
    if zst_exists {
        ChunkSource::Compressed
    } else if plain_exists {
        ChunkSource::Plain
    } else {
        ChunkSource::Missing
    }
}

/// The content of a chunk read from `source` as the bytes `file`: decompressed
/// for a `.zst` file, as read for a plain one; `None` when the chunk is
/// missing or the `.zst` file is not a valid frame.
pub fn load_chunk(source: ChunkSource, file: Vec<u8>) -> (content: Option<Vec<u8>>)
    ensures
        source == ChunkSource::Plain ==> content == Some(file),
        source == ChunkSource::Missing ==> content is None,
        source == ChunkSource::Compressed ==> (zstd_decoded(file@) matches Some(d) ==> content matches Some(v)
            && v@ == d),
        source == ChunkSource::Compressed ==> (zstd_decoded(file@) is None ==> content is None),
{
    match source {
        ChunkSource::Compressed => decode_frame(file.as_slice()),
        ChunkSource::Plain => Some(file),
        ChunkSource::Missing => None,
    }
}

} // verus!
