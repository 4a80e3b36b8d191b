//! Names of recipes and chunk files in the repository.

use vstd::prelude::*;
use crate::text::{concat_str, ends_with, has_suffix, has_prefix, starts_with, chars_of, string_from_chars};
use crate::hash::{hex16, format_hex16, parse_hex16, lemma_hex16_injective};

verus! {

/// The extension of a recipe file.
pub open spec fn recipe_ext() -> Seq<char> {
    ".recipe"@
}

/// The extension of a compressed chunk file.
pub open spec fn zst_ext() -> Seq<char> {
    ".zst"@
}

/// The file name of a compressed chunk: its hash name followed by `.zst`.
pub open spec fn compressed_name(hash: Seq<char>) -> Seq<char> {
    hash + zst_ext()
}

/// The line a recipe holds for one chunk: its hash name and a newline.
pub open spec fn recipe_line(hash: Seq<char>) -> Seq<char> {
    hash + "\n"@
}

/// The name a backup is recorded under: the file's name, `_`, and the time stamp.
pub fn recipe_name(file_name: &str, timestamp: &str) -> (name: String)
    ensures
        name@ == file_name@ + "_"@ + timestamp@,
{
    let a = concat_str(file_name, "_");
    concat_str(a.as_str(), timestamp)
}

/// The file that holds the recipe of a backup named `name`.
pub fn recipe_file_name(name: &str) -> (file: String)
    ensures
        file@ == name@ + recipe_ext(),
{
    concat_str(name, ".recipe")
}

/// The recipe file that a restore request names: the request itself when it
/// already ends in `.recipe`, else the request with `.recipe` appended.
pub fn requested_recipe_file(recipe: &str) -> (file: String)
    ensures
        has_suffix(recipe@, recipe_ext()) ==> file@ == recipe@,
        !has_suffix(recipe@, recipe_ext()) ==> file@ == recipe@ + recipe_ext(),
{
    if ends_with(recipe, ".recipe") {
        recipe.to_owned()
    } else {
        recipe_file_name(recipe)
    }
}

/// The name of the compressed file of the chunk named `hash`.
pub fn compressed_chunk_name(hash: &str) -> (name: String)
    ensures
        name@ == compressed_name(hash@),
{
    concat_str(hash, ".zst")
}

/// The line written to a recipe for the chunk named `hash`.
pub fn recipe_entry(hash: &str) -> (line: String)
    ensures
        line@ == recipe_line(hash@),
{
    concat_str(hash, "\n")
}

/// The start of the line that closes a recipe.
pub open spec fn size_prefix() -> Seq<char> {
    "size "@
}

/// The line that closes a recipe, without its newline: the number of bytes
/// of the file that the recipe lists, in 16 hexadecimal digits.
pub open spec fn size_text(n: u64) -> Seq<char> {
    size_prefix() + hex16(n)
}

/// The line that closes a recipe, with its newline.
pub open spec fn size_line(n: u64) -> Seq<char> {
    size_text(n) + "\n"@
}

/// The number of bytes a recipe line records, if it is a size line.
pub open spec fn size_value(line: Seq<char>) -> Option<u64> {
    if has_prefix(line, size_prefix()) && exists|v: u64| hex16(v) == line.skip(size_prefix().len() as int) {
        Some(choose|v: u64| hex16(v) == line.skip(size_prefix().len() as int))
    } else {
        None
    }
}

/// Reading a size line gives back the number written to it.
pub proof fn lemma_size_line_roundtrip(n: u64)
    ensures
        size_value(size_text(n)) == Some(n),
{
    let t = size_text(n);
    assert(t.take(size_prefix().len() as int) =~= size_prefix());
    assert(t.skip(size_prefix().len() as int) =~= hex16(n));
    let v = choose|v: u64| hex16(v) == t.skip(size_prefix().len() as int);
    lemma_hex16_injective(v, n);
}

/// The line that closes a recipe listing `n` bytes of a file.
pub fn size_entry(n: u64) -> (line: String)
    ensures
        line@ == size_line(n),
{
    let digits = format_hex16(n);
    let a = concat_str("size ", digits.as_str());
    concat_str(a.as_str(), "\n")
}

/// The number of bytes a recipe line records, if it is a size line.
pub fn parse_size_line(line: &str) -> (r: Option<u64>)
    ensures
        r == size_value(line@),
{
    if !starts_with(line, "size ") {
        return None;
    }
    let cs = chars_of(line);
    let p = chars_of("size ");
    let mut rest: Vec<char> = Vec::new();
    let mut i = p.len();
    assert(cs@.skip(p@.len() as int).take(0) =~= rest@);
    while i < cs.len()
        invariant
            p@ == size_prefix(),
            cs@ == line@,
            p@.len() <= i <= cs@.len(),
            rest@ == cs@.skip(p@.len() as int).take(i - p@.len()),
        decreases cs@.len() - i,
    {
        rest.push(cs[i]);
        assert(cs@.skip(p@.len() as int).take(i + 1 - p@.len()) =~= cs@.skip(p@.len() as int).take(
            i - p@.len(),
        ).push(cs@[i as int]));
        i = i + 1;
    }
    assert(rest@ =~= line@.skip(size_prefix().len() as int));
    let digits = string_from_chars(&rest);
    let r = parse_hex16(digits.as_str());
    proof {
        let tail = line@.skip(size_prefix().len() as int);
        match r {
            Some(v) => {
                assert(hex16(v) == tail);
                let w = choose|w: u64| hex16(w) == tail;
                lemma_hex16_injective(w, v);
            },
            None => {
                assert(!(exists|w: u64| hex16(w) == tail));
            },
        }
    }
    r
}

} // verus!
