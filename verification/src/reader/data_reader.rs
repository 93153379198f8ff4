use super::text::{
    chars_of, decimal_usize, line_tokens, parse_usize, piece_ranges, range_texts, ranges_within,
    trim, trim_bounds, word_ranges,
};
use super::{DataFormat, DataReaderError};
use vstd::prelude::*;

verus! {

broadcast use vstd::string::group_string_axioms;

/// A feature field of a line.
#[derive(Debug)]
pub struct ValueToken {
    /// Feature index: the field's position once the label field is left out.
    pub column: usize,
    /// Position of the field in the line.
    pub source_column: usize,
    /// The field's text.
    pub text: String,
}

/// A data line: its label and its feature fields, in order.
#[derive(Debug)]
pub struct ParsedLine {
    pub label: usize,
    pub values: Vec<ValueToken>,
}

/// How lines of a data file are read.
pub struct DataReader {
    pub format: DataFormat,
    pub has_headers: bool,
    pub comment_char: Option<char>,
    pub label_column: Option<usize>,
}

impl Default for DataReader {
    fn default() -> (r: Self)
        ensures
            r.format == DataFormat::Space,
            !r.has_headers,
            r.comment_char == Some('#'),
            r.label_column == Some(0usize),
    {
        Self {
            format: DataFormat::Space,
            has_headers: false,
            comment_char: Some('#'),
            label_column: Some(0),
        }
    }
}

fn copy_range(s: &Vec<char>, lo: usize, hi: usize) -> (r: Vec<char>)
    requires
        lo <= hi <= s@.len(),
    ensures
        r@ == s@.subrange(lo as int, hi as int),
{
    let mut r: Vec<char> = Vec::new();
    let mut i = lo;
    while i < hi
        invariant
            lo <= i <= hi <= s@.len(),
            r@ == s@.subrange(lo as int, i as int),
        decreases hi - i,
    {
        proof {
            assert(s@.subrange(lo as int, i + 1) =~= s@.subrange(lo as int, i as int).push(s@[i as int]));
        }
        r.push(s[i]);
        i += 1;
    }
    r
}

impl DataReader {
    /// The column holding the label (`usize::MAX` when there is none).
    pub open spec fn label_col(&self) -> usize {
        match self.label_column {
            Some(c) => c,
            None => usize::MAX,
        }
    }

    /// The fields of `line`.
    pub open spec fn tokens(&self, line: Seq<char>) -> Seq<Seq<char>> {
        line_tokens(trim(line), self.format.spec_delimiter())
    }

    /// The line with index `line_index` holds no data: it is blank, a comment, the
    /// header, or has no fields.
    pub open spec fn skips_line(&self, line: Seq<char>, line_index: usize) -> bool {
        let t = trim(line);
        ||| t.len() == 0
        ||| (self.comment_char is Some && t[0] == self.comment_char->0)
        ||| (line_index == 0 && self.has_headers)
        ||| self.tokens(line).len() == 0
    }

    pub fn new() -> (r: Self)
        ensures
            r.format == DataFormat::Space,
            !r.has_headers,
            r.comment_char == Some('#'),
            r.label_column == Some(0usize),
    {
        Self::default()
    }

    pub fn with_format(self, format: DataFormat) -> (r: Self)
        ensures
            r == (Self { format, ..self }),
    {
        let mut s = self;
        s.format = format;
        s
    }

    pub fn with_headers(self, has_headers: bool) -> (r: Self)
        ensures
            r == (Self { has_headers, ..self }),
    {
        let mut s = self;
        s.has_headers = has_headers;
        s
    }

    pub fn with_comment_char(self, comment_char: Option<char>) -> (r: Self)
        ensures
            r == (Self { comment_char, ..self }),
    {
        let mut s = self;
        s.comment_char = comment_char;
        s
    }

    pub fn with_label_column(self, label_column: Option<usize>) -> (r: Self)
        ensures
            r == (Self { label_column, ..self }),
    {
        let mut s = self;
        s.label_column = label_column;
        s
    }

    /// Takes the format that the data file's extension names.
    pub fn auto_detect_format(self, extension: &str) -> (r: Self)
        ensures
            r == (Self {
                format: (if extension@ == "csv"@ {
                    DataFormat::Comma
                } else if extension@ == "tsv"@ {
                    DataFormat::Tab
                } else {
                    DataFormat::Space
                }),
                ..self
            }),
    {
        let mut s = self;
        s.format = DataFormat::from_extension(extension);
        s
    }

    /// Reads the line with index `line_index`: `None` for a line without data, else
    /// its label and feature fields, or why it cannot be read.
    pub fn parse_line(&self, line: &str, line_index: usize) -> (r: Result<
        Option<ParsedLine>,
        DataReaderError,
    >)
        ensures
            self.skips_line(line@, line_index) ==> r is Ok && r->Ok_0 is None,
            (!self.skips_line(line@, line_index) && self.label_col() >= self.tokens(line@).len())
                ==> (r matches Err(DataReaderError::LabelColumnOutOfBounds { label_column, line: ln })
                && label_column == self.label_col() && ln == line_index),
            (!self.skips_line(line@, line_index) && self.label_col() < self.tokens(line@).len()
                && decimal_usize(self.tokens(line@)[self.label_col() as int]) is None)
                ==> (r matches Err(DataReaderError::InvalidLabel { token, line: ln, column })
                && token@ == self.tokens(line@)[self.label_col() as int] && ln == line_index
                && column == self.label_col()),
            (!self.skips_line(line@, line_index) && self.label_col() < self.tokens(line@).len()
                && decimal_usize(self.tokens(line@)[self.label_col() as int]) is Some) ==> (r matches Ok(
                Some(p),
            ) && p.label == decimal_usize(self.tokens(line@)[self.label_col() as int])->0
                && p.values@.len() + 1 == self.tokens(line@).len() && forall|k: int|
                0 <= k < p.values@.len() ==> {
                    let src = if k < self.label_col() {
                        k
                    } else {
                        k + 1
                    };
                    &&& (#[trigger] p.values@[k]).column == k
                    &&& p.values@[k].source_column == src
                    &&& p.values@[k].text@ == self.tokens(line@)[src]
                }),
    {
        let chars = chars_of(line);
        let n = chars.len();
        let (a, b) = trim_bounds(&chars, 0, n);
        proof {
            assert(chars@.subrange(0, n as int) =~= chars@);
        }
        let ghost t = trim(line@);
        if a == b {
            return Ok(None);
        }
        if let Some(c) = self.comment_char {
            if chars[a] == c {
                return Ok(None);
            }
        }
        if line_index == 0 && self.has_headers {
            return Ok(None);
        }
        let trimmed_chars = copy_range(&chars, a, b);
        let trimmed = line.substring_char(a, b);
        let delimiter = self.format.delimiter();
        let ranges = if delimiter == ' ' {
            word_ranges(&trimmed_chars)
        } else {
            piece_ranges(&trimmed_chars, delimiter)
        };
        let ghost toks = self.tokens(line@);
        proof {
            assert(range_texts(t, ranges@) == toks);
            assert(ranges@.len() == toks.len());
        }
        if ranges.len() == 0 {
            return Ok(None);
        }
        let label_col = match self.label_column {
            Some(c) => c,
            None => usize::MAX,
        };
        if label_col >= ranges.len() {
            return Err(DataReaderError::LabelColumnOutOfBounds { label_column: label_col, line: line_index });
        }
        let (ls, le) = ranges[label_col];
        proof {
            assert(ranges_within(t, ranges@));
            assert(ranges@[label_col as int].0 <= ranges@[label_col as int].1 <= t.len());
            assert(toks[label_col as int] == t.subrange(ls as int, le as int));
        }
        let label_chars = copy_range(&trimmed_chars, ls, le);
        let label = match parse_usize(&label_chars) {
            Some(l) => l,
            None => {
                let token = trimmed.substring_char(ls, le).to_string();
                return Err(DataReaderError::InvalidLabel { token, line: line_index, column: label_col });
            },
        };
        let mut values: Vec<ValueToken> = Vec::new();
        let mut col_idx: usize = 0;
        while col_idx < ranges.len()
            invariant
                ranges@.len() == toks.len(),
                range_texts(t, ranges@) == toks,
                ranges_within(t, ranges@),
                trimmed@ == t,
                label_col < ranges@.len(),
                self.label_column == Some(label_col),
                0 <= col_idx <= ranges@.len(),
                values@.len() == (if col_idx <= label_col {
                    col_idx as int
                } else {
                    col_idx - 1
                }),
                forall|k: int|
                    0 <= k < values@.len() ==> {
                        let src = if k < label_col {
                            k
                        } else {
                            k + 1
                        };
                        &&& (#[trigger] values@[k]).column == k
                        &&& values@[k].source_column == src
                        &&& values@[k].text@ == toks[src]
                    },
            decreases ranges@.len() - col_idx,
        {
            if Some(col_idx) != self.label_column {
                let effective_col = if col_idx > label_col {
                    col_idx - 1
                } else {
                    col_idx
                };
                let (st, en) = ranges[col_idx];
                proof {
                    assert(ranges@[col_idx as int].0 <= ranges@[col_idx as int].1 <= t.len());
                    assert(toks[col_idx as int] == t.subrange(st as int, en as int));
                }
                let text = trimmed.substring_char(st, en).to_string();
                values.push(ValueToken { column: effective_col, source_column: col_idx, text });
            }
            col_idx += 1;
        }
        Ok(Some(ParsedLine { label, values }))
    }
}

} // verus!
