//! The reader configuration, its builder, and the row iteration session.

use vstd::prelude::*;
use crate::text::{fields_of, lines_of, split_line, split_lines};

verus! {

/// A reader configuration: whether the first line of the input is a header
/// to discard, and the single character on which each line is split into
/// fields.
#[derive(Debug, PartialEq, Eq, Structural)]
pub struct Parser {
    pub has_header: bool,
    pub delimiter: char,
}

/// Accumulates configuration options before a `Parser` is built.
pub struct Builder {
    pub has_header: bool,
    pub delimiter: char,
}

/// The default configuration: a header line is expected, and fields are
/// separated by commas.
pub open spec fn default_builder() -> Builder {
    Builder { has_header: true, delimiter: ',' }
}

/// The parser that a builder in the given state produces.
pub open spec fn built(b: Builder) -> Parser {
    Parser { has_header: b.has_header, delimiter: b.delimiter }
}

/// The parser with the default configuration.
pub open spec fn default_parser() -> Parser {
    Parser { has_header: true, delimiter: ',' }
}

/// The lines of `s` that carry rows: all of them, except that a header
/// configuration discards the first line where there is one.
pub open spec fn body_lines(s: Seq<char>, has_header: bool) -> Seq<Seq<char>> {
    let ls = lines_of(s);
    if has_header && ls.len() > 0 {
        ls.drop_first()
    } else {
        ls
    }
}

/// A default-constructed parser is exactly the parser built from a freshly
/// created builder: `Parser::new()` and `Builder::new().build()` agree.
pub proof fn lemma_default_parser_is_built_default()
    ensures
        built(default_builder()) == default_parser(),
{
}

impl Builder {
    pub fn new() -> (b: Builder)
        ensures
            b == default_builder(),
    {
        Builder { has_header: true, delimiter: ',' }
    }

    pub fn with_header(self, has_header: bool) -> (b: Builder)
        ensures
            b == (Builder { has_header, delimiter: self.delimiter }),
    {
        Builder { has_header, delimiter: self.delimiter }
    }

    pub fn with_delimiter(self, delimiter: char) -> (b: Builder)
        ensures
            b == (Builder { has_header: self.has_header, delimiter }),
    {
        Builder { has_header: self.has_header, delimiter }
    }

    pub fn build(&self) -> (p: Parser)
        ensures
            p == built(*self),
    {
        Parser { has_header: self.has_header, delimiter: self.delimiter }
    }
}

impl Default for Builder {
    fn default() -> (b: Builder)
        ensures
            b == default_builder(),
    {
        Builder::new()
    }
}

impl Parser {
    pub fn new() -> (p: Parser)
        ensures
            p == default_parser(),
    {
        Builder::new().build()
    }

    pub fn builder() -> (b: Builder)
        ensures
            b == default_builder(),
    {
        Builder::new()
    }

    /// Starts a fresh iteration session over `source`: the text is cut into
    /// lines, and with a header configuration the first line, if any, is
    /// discarded before any row is produced.
    pub fn parse(&self, source: &str) -> (rows: Rows)
        ensures
            rows.wf(),
            rows.delimiter == self.delimiter,
            rows.remaining() == body_lines(source@, self.has_header),
    {
        let lines = split_lines(source);
        let cursor: usize = if self.has_header && lines.len() > 0 {
            1
        } else {
            0
        };
        let rows = Rows { lines, cursor, delimiter: self.delimiter };
        proof {
            assert(rows.remaining() =~= body_lines(source@, self.has_header));
        }
        rows
    }
}

impl Default for Parser {
    fn default() -> (p: Parser)
        ensures
            p == default_parser(),
    {
        Parser::new()
    }
}

/// One lazy, forward-only traversal of the rows of a single input text.
pub struct Rows {
    pub lines: Vec<String>,
    pub cursor: usize,
    pub delimiter: char,
}

impl Rows {
    /// The lines not yet consumed, in order.
    pub open spec fn remaining(self) -> Seq<Seq<char>> {
        self.lines.deep_view().skip(self.cursor as int)
    }

    pub open spec fn wf(self) -> bool {
        self.cursor <= self.lines@.len()
    }

    /// Produces the next row: the next pending line split at every
    /// occurrence of the delimiter, or nothing once the session is
    /// exhausted. An exhausted session is left unchanged, so driving it
    /// again keeps yielding nothing.
    pub fn next(&mut self) -> (r: Option<Vec<String>>)
        requires
            old(self).wf(),
        ensures
            final(self).wf(),
            final(self).delimiter == old(self).delimiter,
            old(self).remaining().len() == 0 ==> r is None && *final(self) == *old(self),
            old(self).remaining().len() > 0 ==> {
                &&& final(self).remaining() == old(self).remaining().drop_first()
                &&& (r matches Some(row) && row.deep_view() == fields_of(
                    old(self).remaining()[0],
                    old(self).delimiter,
                ))
            },
    {
        if self.cursor < self.lines.len() {
            let row = split_line(self.lines[self.cursor].as_str(), self.delimiter);
            self.cursor = self.cursor + 1;
            proof {
                assert(self.remaining() =~= old(self).remaining().drop_first());
                assert(old(self).remaining()[0] == old(self).lines.deep_view()[
                    old(self).cursor as int
                ]);
            }
            Some(row)
        } else {
            None
        }
    }
}

} // verus!
