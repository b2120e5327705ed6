//! Source files and the places in them that diagnostics point at.

use vstd::prelude::*;

verus! {

/// A range of bytes in one source file of a map: the file by its index, and
/// the offsets of the first byte and of the byte just past the last.
#[derive(Clone, Copy, Debug, PartialEq, Eq, Hash, Structural)]
pub struct Span {
    pub file: usize,
    pub start: usize,
    pub end: usize,
}

impl Span {
    /// A span of the bytes `start..end` of a file.
    pub fn new(file: usize, start: usize, end: usize) -> (result: Span)
        ensures
            result == (Span { file, start, end }),
    {
        Span { file, start, end }
    }

    /// The offsets, as a pair.
    pub fn range(&self) -> (result: (usize, usize))
        ensures
            result == (self.start, self.end),
    {
        (self.start, self.end)
    }
}

/// A source file: its name, as diagnostics print it, and its text.
pub struct SourceFile {
    pub name: String,
    pub text: String,
}

/// The line and the column just after reading the bytes, both counted from
/// 1: a newline starts a new line, and every byte that begins a character
/// advances the column.
pub open spec fn position_after(bytes: Seq<u8>) -> (nat, nat)
    decreases bytes.len(),
{
    if bytes.len() == 0 {
        (1, 1)
    } else {
        let (line, column) = position_after(bytes.drop_last());
        let byte = bytes.last();
        if byte == 10 {
            (line + 1, 1)
        } else if byte & 0xC0 != 0x80 {
            (line, column + 1)
        } else {
            (line, column)
        }
    }
}

impl SourceFile {
    /// The line and the column of a byte offset, both counted from 1, or
    /// nothing for an offset past the end of the text.
    pub fn line_column(&self, offset: usize) -> (result: Option<(usize, usize)>)
        requires
            offset < usize::MAX,
        ensures
            match result {
                Some((line, column)) => {
                    &&& offset <= vstd::utf8::encode_utf8(self.text@).len()
                    &&& (line as nat, column as nat) == position_after(
                        vstd::utf8::encode_utf8(self.text@).subrange(0, offset as int),
                    )
                },
                None => offset > vstd::utf8::encode_utf8(self.text@).len(),
            },
    {
        let bytes = self.text.as_str().as_bytes();
        if offset > bytes.len() {
            return None;
        }
        let mut line: usize = 1;
        let mut column: usize = 1;
        let mut index: usize = 0;
        while index < offset
            invariant
                index <= offset,
                offset <= bytes@.len(),
                offset < usize::MAX,
                line <= index + 1,
                column <= index + 1,
                (line as nat, column as nat) == position_after(bytes@.subrange(0, index as int)),
            decreases offset - index,
        {
            let byte = bytes[index];
            proof {
                assert(bytes@.subrange(0, index + 1).drop_last() =~= bytes@.subrange(0, index as int));
            }
            if byte == 10 {
                line = line + 1;
                column = 1;
            } else if byte & 0xC0 != 0x80 {
                column = column + 1;
            }
            index += 1;
        }
        Some((line, column))
    }
}

/// The source files of a compilation, each under its index.
pub struct SourceMap {
    pub files: Vec<SourceFile>,
}

impl SourceMap {
    /// No files.
    pub fn new() -> (result: SourceMap)
        ensures
            result.files@.len() == 0,
    {
        SourceMap { files: Vec::new() }
    }

    /// Adds a file; its index is returned.
    pub fn add(&mut self, name: String, text: String) -> (result: usize)
        ensures
            result == old(self).files@.len(),
            final(self).files@ == old(self).files@.push(SourceFile { name, text }),
    {
        self.files.push(SourceFile { name, text });
        self.files.len() - 1
    }

    /// The file of an index.
    pub fn get(&self, file: usize) -> (result: &SourceFile)
        requires
            file < self.files@.len(),
        ensures
            *result == self.files@[file as int],
    {
        &self.files[file]
    }
}

} // verus!
