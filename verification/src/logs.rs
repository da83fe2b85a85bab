//! Incremental reading of RimWorld's `Player.log`: which bytes to read next.

use vstd::prelude::*;

verus! {

broadcast use vstd::string::group_string_axioms;

/// First read only takes this much of the file's tail.
pub const INITIAL_TAIL: u64 = 409600;
/// Never return more than this in one chunk.
pub const MAX_CHUNK: u64 = 4194304;

/// A piece of the log.
#[derive(Debug, Clone)]
pub struct Chunk {
    pub text: String,
    /// Byte offset to pass to the next read.
    pub offset: u64,
    /// True when `text` replaces everything shown so far (first read, or the file was rewritten).
    pub reset: bool,
}

/// The bytes to read from a file of `len` bytes after `offset` (`None`: first read), as
/// (start, end, reset): a first read, or a file that shrank below the offset (the game
/// restarted), starts over at the tail; otherwise reading continues at the offset; at most
/// `MAX_CHUNK` bytes.
pub open spec fn read_range(offset: Option<u64>, len: u64) -> (u64, u64, bool) {
    let tail = if len > INITIAL_TAIL { (len - INITIAL_TAIL) as u64 } else { 0 };
    let (start, reset) = match offset {
        None => (tail, true),
        Some(o) => if o > len { (tail, true) } else { (o, false) },
    };
    let end = if start as int + MAX_CHUNK < len { (start + MAX_CHUNK) as u64 } else { len };
    (start, end, reset)
}

/// `read_range`.
pub fn chunk_range(offset: Option<u64>, len: u64) -> (r: (u64, u64, bool))
    ensures
        r == read_range(offset, len),
        r.0 <= r.1 <= len,
{
    let tail = len.saturating_sub(INITIAL_TAIL);
    let (start, reset) = match offset {
        None => (tail, true),
        Some(o) => if o > len {
            (tail, true)
        } else {
            (o, false)
        },
    };
    let end = if start < len && len - start > MAX_CHUNK {
        start + MAX_CHUNK
    } else {
        len
    };
    (start, end, reset)
}

/// The text of a chunk: a tail read can start mid-line, so after a reset that did not start at
/// the beginning of the file the partial first line (through its `\n`) is dropped.
pub open spec fn chunk_text(text: Seq<char>, start: u64, reset: bool) -> Seq<char> {
    let i = crate::xml::find_char(text, 0, '\n');
    if start > 0 && reset && i >= 0 {
        text.skip(i + 1)
    } else {
        text
    }
}

/// `chunk_text`.
pub fn trim_partial_line(text: String, start: u64, reset: bool) -> (r: String)
    ensures
        r@ == chunk_text(text@, start, reset),
{
    if start > 0 && reset {
        let v = crate::text::chars_of(text.as_str());
        let i = crate::text::find_char_from(v.as_slice(), 0, '\n');
        proof {
            crate::xml::lemma_find_char_pub(v@, 0, '\n', i as int);
        }
        if i < v.len() {
            return crate::text::string_of_range(v.as_slice(), i + 1, v.len());
        }
    }
    text
}

} // verus!
