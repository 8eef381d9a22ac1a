//! The embedded-script level format. A level travels inside an
//! otherwise arbitrary script source as one assignment per grid row,
//!
//! ```text
//! lvlArray[ID][ROW] = [c0, c1, ..., c31];
//! ```
//!
//! where `ROW` counts up from zero in document order and every element
//! is a cell opcode — bare, or wrapped in double quotes (the encoder
//! quotes exactly the note cells). The decoder is a narrow scanner for
//! this grammar: it walks the document line by line, ignores every
//! line that does not open (after leading whitespace) with the
//! `lvlArray` identifier, and holds each line that does to the full
//! statement shape. A statement with a malformed or out-of-sequence
//! left side, a right side that is not an array of exactly one row's
//! worth of decodable opcodes, or trailing content after the
//! terminating semicolon fails the decode of the whole document, as
//! does a document whose statements do not add up to exactly one full
//! grid.

use crate::LEVEL_SIZE;
use crate::LEVEL_WIDTH;
use crate::block::Block;
use crate::block::BlockView;
use crate::block::spec_from_lbl;
use crate::text::is_ws;
use crate::text::lemma_find;
use crate::text::lemma_find2;
use crate::text::lemma_find2_unique;
use crate::text::lemma_find_unique;
use crate::text::lemma_ws_prefix;
use crate::text::lemma_ws_suffix;
use crate::text::lemma_ws_suffix_unique;
use crate::text::trim_start;
use vstd::string::StrSliceExecFns;
use crate::text::spec_find;
use crate::text::spec_find2;
use crate::text::spec_is_ws;
use crate::text::spec_lines;
use crate::text::spec_starts_with;
use crate::text::spec_trim_start;
use crate::text::spec_ws_suffix_len;
use vstd::prelude::*;

verus! {

/// Outcome of a script-format operation.
pub type As3Result<T> = Result<T, As3Error>;

/// The ways decoding a script-format document can fail.
#[derive(Debug, PartialEq, Eq)]
pub enum As3Error {
    /// An element token is not a valid opcode; carries the token.
    InvalidLBL(String),
    /// A row does not hold exactly one row's worth of cells, or the
    /// document does not hold exactly one grid's worth.
    InvalidLevelSize,
    /// The left side of a row statement does not have the shape
    /// `lvlArray[ID][ROW]` with the expected running row index.
    InvalidLeftExpression,
    /// The right side of a row statement is not an array literal.
    InvalidExpressionType,
    /// An element of a row array is not a bare token or a quoted
    /// string.
    UnknownLevelSpecifier,
    /// The document could not be read as a script at all. The narrow
    /// row-statement scanner never fails this way; the kind stays for
    /// the format's full error taxonomy.
    Parse,
    /// Any other failure, described in text.
    Generic(&'static str),
}

/// The mathematical value of an [`As3Error`]: identical to it except
/// that carried text is a sequence of characters.
pub enum As3ErrorView {
    InvalidLBL(Seq<char>),
    InvalidLevelSize,
    InvalidLeftExpression,
    InvalidExpressionType,
    UnknownLevelSpecifier,
    Parse,
    Generic(Seq<char>),
}

impl View for As3Error {
    type V = As3ErrorView;

    open spec fn view(&self) -> As3ErrorView {
        match self {
            As3Error::InvalidLBL(s) => As3ErrorView::InvalidLBL(s@),
            As3Error::InvalidLevelSize => As3ErrorView::InvalidLevelSize,
            As3Error::InvalidLeftExpression => As3ErrorView::InvalidLeftExpression,
            As3Error::InvalidExpressionType => As3ErrorView::InvalidExpressionType,
            As3Error::UnknownLevelSpecifier => As3ErrorView::UnknownLevelSpecifier,
            As3Error::Parse => As3ErrorView::Parse,
            As3Error::Generic(s) => As3ErrorView::Generic(s@),
        }
    }
}

/// Whether `c` is a decimal digit.
pub open spec fn spec_is_digit(c: char) -> bool {
    48 <= c as u32 <= 57
}

/// The numeric value of a digit character.
pub open spec fn spec_digit_val(c: char) -> nat {
    (c as u32 - 48) as nat
}

/// Number of decimal digits at the front of `s`.
pub open spec fn spec_digit_run_len(s: Seq<char>) -> int
    decreases s.len(),
{
    if s.len() == 0 {
        0
    } else if spec_is_digit(s[0]) {
        1 + spec_digit_run_len(s.skip(1))
    } else {
        0
    }
}

/// What [`spec_digit_run_len`] returns: an in-range index, digits
/// everywhere before it, and a non-digit at it unless it is the
/// length.
pub proof fn lemma_digit_run(s: Seq<char>)
    ensures
        0 <= spec_digit_run_len(s) <= s.len(),
        forall|j: int| 0 <= j < spec_digit_run_len(s) ==> spec_is_digit(s[j]),
        spec_digit_run_len(s) < s.len() ==> !spec_is_digit(s[spec_digit_run_len(s)]),
    decreases s.len(),
{
    if s.len() == 0 {
    } else if spec_is_digit(s[0]) {
        lemma_digit_run(s.skip(1));
        let i = spec_digit_run_len(s);
        assert forall|j: int| 0 <= j < i implies spec_is_digit(s[j]) by {
            if j > 0 {
                assert(s.skip(1)[j - 1] == s[j]);
            }
        }
        if i < s.len() {
            assert(s.skip(1)[i - 1] == s[i]);
        }
    } else {
    }
}

/// The characterisation in [`lemma_digit_run`] determines the count.
pub proof fn lemma_digit_run_unique(s: Seq<char>, i: int)
    requires
        0 <= i <= s.len(),
        forall|j: int| 0 <= j < i ==> spec_is_digit(s[j]),
        i < s.len() ==> !spec_is_digit(s[i]),
    ensures
        spec_digit_run_len(s) == i,
{
    lemma_digit_run(s);
    let f = spec_digit_run_len(s);
    if f < i {
        assert(spec_is_digit(s[f]));
    }
    if f > i {
        assert(spec_is_digit(s[i]));
    }
}

/// The number a digit string denotes, most significant digit first.
pub open spec fn spec_digits_val(s: Seq<char>) -> nat
    decreases s.len(),
{
    if s.len() == 0 {
        0
    } else {
        spec_digits_val(s.drop_last()) * 10 + spec_digit_val(s.last())
    }
}

/// One element token of a row array, taken from the front of `s` (`s`
/// must not open with whitespace). A quoted token runs to the next
/// double quote, which both disappear; a bare token runs to the next
/// comma or closing bracket, with trailing whitespace dropped, and
/// must be non-empty. Yields the token and the unconsumed remainder.
pub open spec fn spec_elem_token(s: Seq<char>) -> Result<(Seq<char>, Seq<char>), As3ErrorView> {
    if s.len() == 0 {
        Err(As3ErrorView::UnknownLevelSpecifier)
    } else if s[0] == '"' {
        let j = spec_find(s.skip(1), '"');
        if j == s.skip(1).len() {
            Err(As3ErrorView::UnknownLevelSpecifier)
        } else {
            Ok((s.skip(1).take(j), s.skip(1).skip(j + 1)))
        }
    } else {
        let j = spec_find2(s, ',', ']');
        let raw = s.take(j);
        let tok = raw.take(raw.len() - spec_ws_suffix_len(raw));
        if tok.len() == 0 {
            Err(As3ErrorView::UnknownLevelSpecifier)
        } else {
            Ok((tok, s.skip(j)))
        }
    }
}

/// A successfully taken element token leaves a strictly shorter
/// remainder.
pub proof fn lemma_elem_token_shorter(s: Seq<char>)
    ensures
        spec_elem_token(s) matches Ok(tk) ==> tk.1.len() < s.len(),
{
    if s.len() == 0 {
    } else if s[0] == '"' {
        lemma_find(s.skip(1), '"');
    } else {
        lemma_find2(s, ',', ']');
        let j = spec_find2(s, ',', ']');
        lemma_ws_suffix(s.take(j));
    }
}

/// The elements of a row array, parsed from the front of `s`, which
/// stands just past the opening bracket. Consumes up to and including
/// the closing bracket; yields the decoded cells in order and the
/// unconsumed remainder. Fails on the first element that is not a
/// token ([`As3ErrorView::UnknownLevelSpecifier`]), does not decode
/// ([`As3ErrorView::InvalidLBL`], carrying the token), or is not
/// followed by a separator ([`As3ErrorView::InvalidExpressionType`]).
pub open spec fn spec_parse_elems(s: Seq<char>) -> Result<(Seq<BlockView>, Seq<char>), As3ErrorView>
    decreases s.len(),
    via spec_parse_elems_decreases
{
    let t = spec_trim_start(s);
    if t.len() == 0 {
        Err(As3ErrorView::InvalidExpressionType)
    } else if t[0] == ']' {
        Ok((Seq::empty(), t.skip(1)))
    } else {
        match spec_elem_token(t) {
            Err(e) => Err(e),
            Ok(tk) => match spec_from_lbl(tk.0) {
                None => Err(As3ErrorView::InvalidLBL(tk.0)),
                Some(b) => {
                    let u = spec_trim_start(tk.1);
                    if u.len() == 0 {
                        Err(As3ErrorView::InvalidExpressionType)
                    } else if u[0] == ',' {
                        match spec_parse_elems(u.skip(1)) {
                            Err(e) => Err(e),
                            Ok(r2) => Ok((seq![b] + r2.0, r2.1)),
                        }
                    } else if u[0] == ']' {
                        Ok((seq![b], u.skip(1)))
                    } else {
                        Err(As3ErrorView::InvalidExpressionType)
                    }
                },
            },
        }
    }
}

#[via_fn]
proof fn spec_parse_elems_decreases(s: Seq<char>) {
    lemma_ws_prefix(s);
    let t = spec_trim_start(s);
    if t.len() > 0 && t[0] != ']' {
        lemma_elem_token_shorter(t);
        match spec_elem_token(t) {
            Ok(tk) => {
                lemma_ws_prefix(tk.1);
            },
            Err(_) => {
            },
        }
    }
}

/// The right side of a row statement, parsed from just past the
/// array's opening bracket: the element list up to its closing
/// bracket, which must hold exactly one row's worth of cells (else
/// [`As3ErrorView::InvalidLevelSize`]), followed by a semicolon (then
/// anything) or the line end (else
/// [`As3ErrorView::InvalidExpressionType`]).
pub open spec fn spec_parse_stmt_rhs(s: Seq<char>) -> Result<Seq<BlockView>, As3ErrorView> {
    match spec_parse_elems(s) {
        Err(e) => Err(e),
        Ok(r) => if r.0.len() != LEVEL_WIDTH {
            Err(As3ErrorView::InvalidLevelSize)
        } else {
            let tail = spec_trim_start(r.1);
            if tail.len() == 0 || tail[0] == ';' {
                Ok(r.0)
            } else {
                Err(As3ErrorView::InvalidExpressionType)
            }
        },
    }
}

/// The assignment part of a row statement, parsed from just past the
/// row index's closing bracket: an `=` and the opening bracket of an
/// array literal must follow (else
/// [`As3ErrorView::InvalidExpressionType`]), and the rest is the
/// statement's right side.
pub open spec fn spec_parse_assign(s: Seq<char>) -> Result<Seq<BlockView>, As3ErrorView> {
    let s4 = spec_trim_start(s);
    if s4.len() == 0 || s4[0] != '=' {
        Err(As3ErrorView::InvalidExpressionType)
    } else {
        let s5 = spec_trim_start(s4.skip(1));
        if s5.len() == 0 || s5[0] != '[' {
            Err(As3ErrorView::InvalidExpressionType)
        } else {
            spec_parse_stmt_rhs(s5.skip(1))
        }
    }
}

/// The row-index part of a row statement, parsed from just past the
/// level identifier's closing bracket: a bracketed run of digits whose
/// numeric value must equal `count`, else
/// [`As3ErrorView::InvalidLeftExpression`]; the assignment follows.
pub open spec fn spec_parse_row_index(s: Seq<char>, count: nat) -> Result<
    Seq<BlockView>,
    As3ErrorView,
> {
    let s1 = spec_trim_start(s);
    if s1.len() == 0 || s1[0] != '[' {
        Err(As3ErrorView::InvalidLeftExpression)
    } else {
        let s2 = spec_trim_start(s1.skip(1));
        let d = spec_digit_run_len(s2);
        if d == 0 {
            Err(As3ErrorView::InvalidLeftExpression)
        } else {
            let s3 = spec_trim_start(s2.skip(d));
            if s3.len() == 0 || s3[0] != ']' {
                Err(As3ErrorView::InvalidLeftExpression)
            } else if spec_digits_val(s2.take(d)) != count {
                Err(As3ErrorView::InvalidLeftExpression)
            } else {
                spec_parse_assign(s3.skip(1))
            }
        }
    }
}

/// One row statement, parsed from a whole line whose leading
/// whitespace has been removed and which starts with the `lvlArray`
/// identifier; `count` is the row index the running counter demands.
/// Yields the row's cells. The left side must open with a bracketed,
/// non-empty level identifier running to the first closing bracket
/// (else [`As3ErrorView::InvalidLeftExpression`]); the row index and
/// the assignment follow.
pub open spec fn spec_parse_stmt(line: Seq<char>, count: nat) -> Result<Seq<BlockView>, As3ErrorView> {
    let s0 = line.skip(8);
    if s0.len() == 0 || s0[0] != '[' {
        Err(As3ErrorView::InvalidLeftExpression)
    } else {
        let body = s0.skip(1);
        let j = spec_find(body, ']');
        if j == body.len() || j == 0 {
            Err(As3ErrorView::InvalidLeftExpression)
        } else {
            spec_parse_row_index(body.skip(j + 1), count)
        }
    }
}

/// Whether a line opens, after leading whitespace, with the `lvlArray`
/// identifier and therefore must be a row statement.
pub open spec fn spec_is_row_line(line: Seq<char>) -> bool {
    spec_starts_with(spec_trim_start(line), crate::spec_lvl_array_ident())
}

/// The rows collected from the document's lines, starting the running
/// row counter at `count`: lines that are not row statements are
/// ignored; each row statement must parse against the counter, which
/// then advances; the rows' cells are concatenated in order.
pub open spec fn spec_as3_rows(ls: Seq<Seq<char>>, count: nat) -> Result<Seq<BlockView>, As3ErrorView>
    decreases ls.len(),
{
    if ls.len() == 0 {
        Ok(Seq::empty())
    } else if !spec_is_row_line(ls[0]) {
        spec_as3_rows(ls.skip(1), count)
    } else {
        match spec_parse_stmt(spec_trim_start(ls[0]), count) {
            Err(e) => Err(e),
            Ok(row) => match spec_as3_rows(ls.skip(1), count + 1) {
                Err(e) => Err(e),
                Ok(rest) => Ok(row + rest),
            },
        }
    }
}

/// What decoding a script-format document yields: the concatenated
/// cells of its row statements, which must form exactly one full grid.
pub open spec fn spec_decode_as3(s: Seq<char>) -> Result<Seq<BlockView>, As3ErrorView> {
    match spec_as3_rows(spec_lines(s), 0) {
        Err(e) => Err(e),
        Ok(cells) => if cells.len() != LEVEL_SIZE {
            Err(As3ErrorView::InvalidLevelSize)
        } else {
            Ok(cells)
        },
    }
}

/// Executable twin of [`spec_is_digit`].
fn is_digit_char(c: char) -> (r: bool)
    ensures
        r == spec_is_digit(c),
{
    let u = c as u32;
    48 <= u && u <= 57
}

/// Takes one element token from the front of `s`, as
/// [`spec_elem_token`] describes.
fn parse_elem(s: &str) -> (r: Result<(String, &str), As3Error>)
    ensures
        match r {
            Ok(p) => spec_elem_token(s@) == Ok::<(Seq<char>, Seq<char>), As3ErrorView>((
                p.0@,
                p.1@,
            )),
            Err(e) => spec_elem_token(s@) == Err::<(Seq<char>, Seq<char>), As3ErrorView>(e@),
        },
{
    let n = s.unicode_len();
    if n == 0 {
        return Err(As3Error::UnknownLevelSpecifier);
    }
    if s.get_char(0) == '"' {
        let mut j: usize = 1;
        while j < n && s.get_char(j) != '"'
            invariant
                1 <= j <= n,
                n == s@.len(),
                forall|k: int| 1 <= k < j ==> s@[k] != '"',
            decreases n - j,
        {
            j += 1;
        }
        proof {
            let t = s@.skip(1);
            assert forall|k: int| 0 <= k < j - 1 implies t[k] != '"' by {
                assert(t[k] == s@[k + 1]);
            }
            if j < n {
                assert(t[j - 1] == s@[j as int]);
            }
            lemma_find_unique(t, '"', j - 1);
        }
        if j == n {
            return Err(As3Error::UnknownLevelSpecifier);
        }
        let tok = s.substring_char(1, j).to_owned();
        let rest = s.substring_char(j + 1, n);
        proof {
            assert(tok@ =~= s@.skip(1).take(j - 1));
            assert(rest@ =~= s@.skip(1).skip(j - 1 + 1));
        }
        Ok((tok, rest))
    } else {
        let mut j: usize = 0;
        while j < n && s.get_char(j) != ',' && s.get_char(j) != ']'
            invariant
                j <= n,
                n == s@.len(),
                forall|k: int| 0 <= k < j ==> s@[k] != ',' && s@[k] != ']',
            decreases n - j,
        {
            j += 1;
        }
        proof {
            lemma_find2_unique(s@, ',', ']', j as int);
        }
        let mut e: usize = j;
        while e > 0 && is_ws(s.get_char(e - 1))
            invariant
                e <= j,
                j <= n,
                n == s@.len(),
                forall|k: int| e <= k < j ==> spec_is_ws(s@[k]),
            decreases e,
        {
            e -= 1;
        }
        proof {
            let raw = s@.take(j as int);
            assert forall|k: int| raw.len() - (j - e) <= k < raw.len() implies spec_is_ws(
                raw[k],
            ) by {
                assert(raw[k] == s@[k]);
            }
            if e > 0 {
                assert(raw[e - 1] == s@[e - 1]);
            }
            lemma_ws_suffix_unique(raw, j - e);
            assert(raw.take(raw.len() - (j - e)) =~= s@.subrange(0, e as int));
        }
        if e == 0 {
            return Err(As3Error::UnknownLevelSpecifier);
        }
        let tok = s.substring_char(0, e).to_owned();
        let rest = s.substring_char(j, n);
        proof {
            assert(rest@ =~= s@.skip(j as int));
        }
        Ok((tok, rest))
    }
}

/// Parses the elements of a row array from the front of `s` (just
/// past the opening bracket), as [`spec_parse_elems`] describes.
fn parse_row_elems(s: &str) -> (r: Result<(Vec<Block>, &str), As3Error>)
    ensures
        match r {
            Ok(p) => spec_parse_elems(s@) == Ok::<(Seq<BlockView>, Seq<char>), As3ErrorView>((
                p.0.deep_view(),
                p.1@,
            )),
            Err(e) => spec_parse_elems(s@) == Err::<(Seq<BlockView>, Seq<char>), As3ErrorView>(e@),
        },
{
    let mut cur: &str = s;
    let mut out: Vec<Block> = Vec::new();
    proof {
        if spec_parse_elems(s@) is Ok {
            let p2 = spec_parse_elems(s@)->Ok_0;
            assert(out.deep_view() + p2.0 =~= p2.0);
        }
    }
    loop
        invariant
            spec_parse_elems(s@) == (match spec_parse_elems(cur@) {
                Ok(p2) => Ok::<(Seq<BlockView>, Seq<char>), As3ErrorView>((
                    out.deep_view() + p2.0,
                    p2.1,
                )),
                Err(e) => Err::<(Seq<BlockView>, Seq<char>), As3ErrorView>(e),
            }),
        decreases cur@.len(),
    {
        let t = trim_start(cur);
        proof {
            lemma_ws_prefix(cur@);
        }
        let n_t = t.unicode_len();
        if n_t == 0 {
            return Err(As3Error::InvalidExpressionType);
        }
        if t.get_char(0) == ']' {
            let rest = t.substring_char(1, n_t);
            proof {
                assert(rest@ =~= t@.skip(1));
                assert(out.deep_view() + Seq::<BlockView>::empty() =~= out.deep_view());
            }
            return Ok((out, rest));
        }
        match parse_elem(t) {
            Err(e) => {
                return Err(e);
            },
            Ok((tok, rest1)) => {
                proof {
                    lemma_elem_token_shorter(t@);
                    lemma_ws_prefix(rest1@);
                }
                match Block::from_lbl(tok.as_str()) {
                    None => {
                        return Err(As3Error::InvalidLBL(tok));
                    },
                    Some(b) => {
                        let u = trim_start(rest1);
                        let n_u = u.unicode_len();
                        if n_u == 0 {
                            return Err(As3Error::InvalidExpressionType);
                        }
                        let c0 = u.get_char(0);
                        if c0 == ',' {
                            let ghost dv0 = out.deep_view();
                            out.push(b);
                            let next = u.substring_char(1, n_u);
                            proof {
                                assert(next@ =~= u@.skip(1));
                                assert(out.deep_view() =~= dv0 + seq![b@]);
                                if spec_parse_elems(u@.skip(1)) is Ok {
                                    let p2 = spec_parse_elems(u@.skip(1))->Ok_0;
                                    assert(dv0 + (seq![b@] + p2.0) =~= (dv0 + seq![b@]) + p2.0);
                                }
                            }
                            cur = next;
                        } else if c0 == ']' {
                            let ghost dv0 = out.deep_view();
                            out.push(b);
                            let rest = u.substring_char(1, n_u);
                            proof {
                                assert(rest@ =~= u@.skip(1));
                                assert(out.deep_view() =~= dv0 + seq![b@]);
                            }
                            return Ok((out, rest));
                        } else {
                            return Err(As3Error::InvalidExpressionType);
                        }
                    },
                }
            },
        }
    }
}

/// Parses one row statement from a line that starts with the
/// `lvlArray` identifier, as [`spec_parse_stmt`] describes. The
/// running row counter stays far below the point where its textual
/// row index could be misread, so an overlong digit run never matches.
fn parse_stmt(line: &str, count: usize) -> (r: Result<Vec<Block>, As3Error>)
    requires
        spec_starts_with(line@, crate::spec_lvl_array_ident()),
        (count as int) < 0x1000_0000_0000_0000,
    ensures
        match r {
            Ok(v) => spec_parse_stmt(line@, count as nat) == Ok::<Seq<BlockView>, As3ErrorView>(
                v.deep_view(),
            ),
            Err(e) => spec_parse_stmt(line@, count as nat) == Err::<Seq<BlockView>, As3ErrorView>(
                e@,
            ),
        },
{
    let n = line.unicode_len();
    let s0 = line.substring_char(8, n);
    proof {
        assert(s0@ =~= line@.skip(8));
    }
    let n0 = s0.unicode_len();
    if n0 == 0 || s0.get_char(0) != '[' {
        return Err(As3Error::InvalidLeftExpression);
    }
    let body = s0.substring_char(1, n0);
    proof {
        assert(body@ =~= s0@.skip(1));
    }
    let nb = body.unicode_len();
    let mut j: usize = 0;
    while j < nb && body.get_char(j) != ']'
        invariant
            j <= nb,
            nb == body@.len(),
            forall|k: int| 0 <= k < j ==> body@[k] != ']',
        decreases nb - j,
    {
        j += 1;
    }
    proof {
        lemma_find_unique(body@, ']', j as int);
    }
    if j == nb || j == 0 {
        return Err(As3Error::InvalidLeftExpression);
    }
    let after_id = body.substring_char(j + 1, nb);
    proof {
        assert(after_id@ =~= body@.skip(j as int + 1));
    }
    let s1 = trim_start(after_id);
    let n1 = s1.unicode_len();
    if n1 == 0 || s1.get_char(0) != '[' {
        return Err(As3Error::InvalidLeftExpression);
    }
    let s1b = s1.substring_char(1, n1);
    proof {
        assert(s1b@ =~= s1@.skip(1));
    }
    let s2 = trim_start(s1b);
    let n2 = s2.unicode_len();
    let mut d: usize = 0;
    let mut acc: u64 = 0;
    let mut overflow: bool = false;
    while d < n2 && is_digit_char(s2.get_char(d))
        invariant
            d <= n2,
            n2 == s2@.len(),
            forall|k: int| 0 <= k < d ==> spec_is_digit(s2@[k]),
            !overflow ==> acc as nat == spec_digits_val(s2@.take(d as int)),
            overflow ==> spec_digits_val(s2@.take(d as int)) > 1_844_674_407_370_955_160,
        decreases n2 - d,
    {
        let c = s2.get_char(d);
        let dv = (c as u32) - 48;
        proof {
            assert(s2@.take(d as int + 1).drop_last() =~= s2@.take(d as int));
            assert(s2@.take(d as int + 1).last() == s2@[d as int]);
        }
        if !overflow {
            if acc <= 1_844_674_407_370_955_160u64 {
                acc = acc * 10 + (dv as u64);
            } else {
                overflow = true;
            }
        }
        d += 1;
    }
    proof {
        lemma_digit_run_unique(s2@, d as int);
    }
    if d == 0 {
        return Err(As3Error::InvalidLeftExpression);
    }
    let s2b = s2.substring_char(d, n2);
    proof {
        assert(s2b@ =~= s2@.skip(d as int));
    }
    let s3 = trim_start(s2b);
    let n3 = s3.unicode_len();
    if n3 == 0 || s3.get_char(0) != ']' {
        return Err(As3Error::InvalidLeftExpression);
    }
    let row_match = !overflow && acc == (count as u64);
    if !row_match {
        return Err(As3Error::InvalidLeftExpression);
    }
    let s3b = s3.substring_char(1, n3);
    proof {
        assert(s3b@ =~= s3@.skip(1));
    }
    let s4 = trim_start(s3b);
    let n4 = s4.unicode_len();
    if n4 == 0 || s4.get_char(0) != '=' {
        return Err(As3Error::InvalidExpressionType);
    }
    let s4b = s4.substring_char(1, n4);
    proof {
        assert(s4b@ =~= s4@.skip(1));
    }
    let s5 = trim_start(s4b);
    let n5 = s5.unicode_len();
    if n5 == 0 || s5.get_char(0) != '[' {
        return Err(As3Error::InvalidExpressionType);
    }
    let s5b = s5.substring_char(1, n5);
    proof {
        assert(s5b@ =~= s5@.skip(1));
    }
    match parse_row_elems(s5b) {
        Err(e) => Err(e),
        Ok((cells, rest)) => {
            if cells.len() != LEVEL_WIDTH {
                return Err(As3Error::InvalidLevelSize);
            }
            let tail = trim_start(rest);
            let nt = tail.unicode_len();
            if nt == 0 || tail.get_char(0) == ';' {
                Ok(cells)
            } else {
                Err(As3Error::InvalidExpressionType)
            }
        },
    }
}

/// Decodes a script-format document into its cells, as
/// [`spec_decode_as3`] describes: lines that are not row statements
/// are ignored; each row statement must parse against the running row
/// counter; the rows must add up to exactly one full grid.
pub fn decode_as3(data: &str) -> (r: As3Result<Vec<Block>>)
    ensures
        match r {
            Ok(v) => spec_decode_as3(data@) == Ok::<Seq<BlockView>, As3ErrorView>(v.deep_view()),
            Err(e) => spec_decode_as3(data@) == Err::<Seq<BlockView>, As3ErrorView>(e@),
        },
{
    let ls = crate::text::split_lines(data);
    let ghost ls0 = ls.deep_view();
    let mut out: Vec<Block> = Vec::new();
    let mut count: usize = 0;
    let mut i: usize = 0;
    proof {
        assert(ls0.skip(0) =~= ls0);
        if spec_as3_rows(ls0, 0) is Ok {
            let bs = spec_as3_rows(ls0, 0)->Ok_0;
            assert(out.deep_view() + bs =~= bs);
        }
    }
    while i < ls.len()
        invariant
            i <= ls.len(),
            ls.deep_view() == ls0,
            ls0 == spec_lines(data@),
            out@.len() == 32 * (count as int),
            spec_as3_rows(ls0, 0) == (match spec_as3_rows(ls0.skip(i as int), count as nat) {
                Ok(bs) => Ok::<Seq<BlockView>, As3ErrorView>(out.deep_view() + bs),
                Err(e) => Err::<Seq<BlockView>, As3ErrorView>(e),
            }),
        decreases ls@.len() - i,
    {
        let ghost rest = ls0.skip(i as int);
        proof {
            assert(rest[0] == ls0[i as int]);
            assert(ls0[i as int] == ls@[i as int]@);
            assert(rest.skip(1) =~= ls0.skip(i as int + 1));
        }
        let t = trim_start(ls[i].as_str());
        proof {
            reveal_strlit("lvlArray");
            assert("lvlArray"@ =~= crate::spec_lvl_array_ident());
        }
        if crate::text::starts_with(t, "lvlArray") {
            let current_len = out.len();
            match parse_stmt(t, count) {
                Ok(mut row) => {
                    let ghost dv0 = out.deep_view();
                    let ghost rowdv = row.deep_view();
                    out.append(&mut row);
                    let new_len = out.len();
                    proof {
                        assert(out.deep_view() =~= dv0 + rowdv);
                        assert(rowdv.len() == LEVEL_WIDTH);
                        assert(new_len == 32 * (count as int) + 32);
                        if spec_as3_rows(ls0.skip(i as int + 1), count as nat + 1) is Ok {
                            let bs = spec_as3_rows(
                                ls0.skip(i as int + 1),
                                count as nat + 1,
                            )->Ok_0;
                            assert(dv0 + (rowdv + bs) =~= (dv0 + rowdv) + bs);
                        }
                    }
                    count = count + 1;
                },
                Err(e) => {
                    return Err(e);
                },
            }
        }
        i += 1;
    }
    proof {
        assert(ls0.skip(i as int).len() == 0);
        assert(out.deep_view() + Seq::<BlockView>::empty() =~= out.deep_view());
    }
    if out.len() != LEVEL_SIZE {
        return Err(As3Error::InvalidLevelSize);
    }
    Ok(out)
}

/// The character a decimal digit denotes.
pub open spec fn spec_digit_char(d: nat) -> char {
    if d == 0 {
        '0'
    } else if d == 1 {
        '1'
    } else if d == 2 {
        '2'
    } else if d == 3 {
        '3'
    } else if d == 4 {
        '4'
    } else if d == 5 {
        '5'
    } else if d == 6 {
        '6'
    } else if d == 7 {
        '7'
    } else if d == 8 {
        '8'
    } else {
        '9'
    }
}

/// The decimal digits of `n`, most significant first, without leading
/// zeros (a single zero for zero itself).
pub open spec fn spec_dec_digits(n: nat) -> Seq<char>
    decreases n,
{
    if n < 10 {
        seq![spec_digit_char(n)]
    } else {
        spec_dec_digits(n / 10) + seq![spec_digit_char(n % 10)]
    }
}

/// The token a cell is written as inside a row array: a note is
/// wrapped in double quotes (exactly the note cells are quoted);
/// every other cell is the bare opcode.
pub open spec fn spec_as3_token(b: BlockView) -> Seq<char> {
    match b {
        BlockView::Note { .. } => seq!['"'] + crate::block::spec_as_lbl(b) + seq!['"'],
        _ => crate::block::spec_as_lbl(b),
    }
}

/// The element list of one row, tokens separated by a comma and a
/// space.
pub open spec fn spec_emit_elems(cells: Seq<BlockView>) -> Seq<char>
    decreases cells.len(),
{
    if cells.len() == 0 {
        Seq::empty()
    } else if cells.len() == 1 {
        spec_as3_token(cells[0])
    } else {
        spec_as3_token(cells[0]) + seq![',', ' '] + spec_emit_elems(cells.skip(1))
    }
}

/// One full row statement, without its trailing line feed.
pub open spec fn spec_row_line(id: Seq<char>, row: nat, cells: Seq<BlockView>) -> Seq<char> {
    crate::spec_lvl_array_ident() + seq!['['] + id + seq![']', '['] + spec_dec_digits(row) + seq![
        ']',
        ' ',
        '=',
        ' ',
        '[',
    ] + spec_emit_elems(cells) + seq![']', ';']
}

/// The row statements from row `r` on, one per line.
pub open spec fn spec_encode_rows(id: Seq<char>, cells: Seq<BlockView>, r: nat) -> Seq<char>
    decreases crate::LEVEL_HEIGHT - r,
{
    if r >= crate::LEVEL_HEIGHT {
        Seq::empty()
    } else {
        spec_row_line(
            id,
            r,
            cells.subrange(r * LEVEL_WIDTH, r * LEVEL_WIDTH + LEVEL_WIDTH),
        ) + seq!['\n'] + spec_encode_rows(id, cells, r + 1)
    }
}

/// The script-format encoding of a full grid under the level
/// identifier `id`: one row statement per grid row, in order.
pub open spec fn spec_encode_as3(id: Seq<char>, cells: Seq<BlockView>) -> Seq<char> {
    spec_encode_rows(id, cells, 0)
}

/// Turns a digit into its one-character string.
fn digit_str(d: usize) -> (r: String)
    requires
        d < 10,
    ensures
        r@ == seq![spec_digit_char(d as nat)],
{
    proof {
        reveal_strlit("0");
        reveal_strlit("1");
        reveal_strlit("2");
        reveal_strlit("3");
        reveal_strlit("4");
        reveal_strlit("5");
        reveal_strlit("6");
        reveal_strlit("7");
        reveal_strlit("8");
        reveal_strlit("9");
        assert("0"@ =~= seq!['0']);
        assert("1"@ =~= seq!['1']);
        assert("2"@ =~= seq!['2']);
        assert("3"@ =~= seq!['3']);
        assert("4"@ =~= seq!['4']);
        assert("5"@ =~= seq!['5']);
        assert("6"@ =~= seq!['6']);
        assert("7"@ =~= seq!['7']);
        assert("8"@ =~= seq!['8']);
        assert("9"@ =~= seq!['9']);
    }
    match d {
        0 => String::from_str("0"),
        1 => String::from_str("1"),
        2 => String::from_str("2"),
        3 => String::from_str("3"),
        4 => String::from_str("4"),
        5 => String::from_str("5"),
        6 => String::from_str("6"),
        7 => String::from_str("7"),
        8 => String::from_str("8"),
        _ => String::from_str("9"),
    }
}

/// Writes `n` in decimal.
fn dec_str(n: usize) -> (r: String)
    ensures
        r@ == spec_dec_digits(n as nat),
    decreases n,
{
    if n < 10 {
        digit_str(n)
    } else {
        let mut s = dec_str(n / 10);
        let d = digit_str(n % 10);
        s.append(d.as_str());
        s
    }
}

/// Encodes a full grid in the script format under the level
/// identifier `level`: exactly one row statement per grid row, every
/// cell written through the opcode table, note cells quoted.
pub fn encode_as3(level: &str, data: &[Block]) -> (r: String)
    requires
        data@.len() == LEVEL_SIZE,
    ensures
        r@ == spec_encode_as3(level@, data.deep_view()),
{
    let ghost cells = data.deep_view();
    let mut out = String::new();
    let mut row: usize = 0;
    proof {
        assert(out@ + spec_encode_rows(level@, cells, 0) =~= spec_encode_rows(level@, cells, 0));
    }
    while row < crate::LEVEL_HEIGHT
        invariant
            row <= crate::LEVEL_HEIGHT,
            cells == data.deep_view(),
            cells.len() == LEVEL_SIZE,
            spec_encode_as3(level@, cells) == out@ + spec_encode_rows(level@, cells, row as nat),
        decreases crate::LEVEL_HEIGHT - row,
    {
        let ghost out_r0 = out@;
        let ghost rowcells = cells.subrange(row as int * 32, row as int * 32 + 32);
        out.append("lvlArray[");
        out.append(level);
        out.append("][");
        let ds = dec_str(row);
        out.append(ds.as_str());
        out.append("] = [");
        let ghost row_target = out_r0 + crate::spec_lvl_array_ident() + seq!['['] + level@ + seq![
            ']',
            '[',
        ] + spec_dec_digits(row as nat) + seq![']', ' ', '=', ' ', '['] + spec_emit_elems(rowcells);
        proof {
            reveal_strlit("lvlArray[");
            reveal_strlit("][");
            reveal_strlit("] = [");
            assert("lvlArray["@ =~= crate::spec_lvl_array_ident() + seq!['[']);
            assert("]["@ =~= seq![']', '[']);
            assert("] = ["@ =~= seq![']', ' ', '=', ' ', '[']);
            assert(out@ =~= out_r0 + crate::spec_lvl_array_ident() + seq!['['] + level@ + seq![
                ']',
                '[',
            ] + spec_dec_digits(row as nat) + seq![']', ' ', '=', ' ', '[']);
            assert(rowcells.skip(0) =~= rowcells);
            assert(out@ + spec_emit_elems(rowcells) =~= row_target);
        }
        let mut c: usize = 0;
        while c < LEVEL_WIDTH
            invariant
                c <= LEVEL_WIDTH,
                row < crate::LEVEL_HEIGHT,
                cells == data.deep_view(),
                cells.len() == LEVEL_SIZE,
                rowcells == cells.subrange(row as int * 32, row as int * 32 + 32),
                out@ + spec_emit_elems(rowcells.skip(c as int)) == row_target,
            decreases LEVEL_WIDTH - c,
        {
            let idx = row * LEVEL_WIDTH + c;
            let b = &data[idx];
            let tok = b.as_lbl();
            let ghost out_c0 = out@;
            let is_note = matches!(b, Block::Note { .. });
            if is_note {
                out.append("\"");
                out.append(tok.as_str());
                out.append("\"");
            } else {
                out.append(tok.as_str());
            }
            if c < LEVEL_WIDTH - 1 {
                out.append(", ");
            }
            proof {
                reveal_strlit("\"");
                reveal_strlit(", ");
                assert("\""@ =~= seq!['"']);
                assert(", "@ =~= seq![',', ' ']);
                assert(b@ == cells[idx as int]);
                assert(rowcells.skip(c as int)[0] == rowcells[c as int]);
                assert(rowcells[c as int] == cells[row as int * 32 + c]);
                assert(rowcells.skip(c as int).skip(1) =~= rowcells.skip(c as int + 1));
                if c < LEVEL_WIDTH - 1 {
                    assert(out@ =~= out_c0 + spec_as3_token(rowcells[c as int]) + seq![',', ' ']);
                    assert(out@ + spec_emit_elems(rowcells.skip(c as int + 1)) =~= out_c0
                        + spec_emit_elems(rowcells.skip(c as int)));
                } else {
                    assert(rowcells.skip(c as int).len() == 1);
                    assert(out@ =~= out_c0 + spec_as3_token(rowcells[c as int]));
                    assert(out@ + spec_emit_elems(rowcells.skip(c as int + 1)) =~= out_c0
                        + spec_emit_elems(rowcells.skip(c as int)));
                }
            }
            c += 1;
        }
        out.append("];\n");
        proof {
            reveal_strlit("];\n");
            assert("];\n"@ =~= seq![']', ';', '\n']);
            assert(out@ =~= out_r0 + spec_row_line(level@, row as nat, rowcells) + seq!['\n']);
            assert(out@ + spec_encode_rows(level@, cells, row as nat + 1) =~= out_r0
                + spec_encode_rows(level@, cells, row as nat));
        }
        row += 1;
    }
    proof {
        assert(spec_encode_rows(level@, cells, crate::LEVEL_HEIGHT as nat).len() == 0);
        assert(out@ + Seq::<char>::empty() =~= out@);
    }
    out
}

/// Whether a cell survives the script format unharmed: a note text
/// must contain no double quote (the quoting is not escaped) and no
/// line feed (the format is line-oriented); every other cell is
/// unconditionally safe.
pub open spec fn spec_as3_cell_safe(b: BlockView) -> bool {
    match b {
        BlockView::Note { text } => forall|j: int|
            0 <= j < text.len() ==> text[j] != '"' && text[j] != '\n',
        _ => true,
    }
}

/// A character that can stand in a bare (unquoted) token without
/// confusing the scanner.
pub open spec fn spec_bare_char(c: char) -> bool {
    !spec_is_ws(c) && c != '"' && c != ',' && c != ']'
}

/// Both characters of a non-note opcode are bare.
proof fn lemma_opcode_bare(b: BlockView)
    requires
        !(b is Note),
    ensures
        crate::block::spec_as_lbl(b).len() == 2,
        spec_bare_char(crate::block::spec_as_lbl(b)[0]),
        spec_bare_char(crate::block::spec_as_lbl(b)[1]),
{
}

/// No line feed anywhere in `s`.
pub open spec fn spec_no_nl(s: Seq<char>) -> bool {
    forall|j: int| 0 <= j < s.len() ==> s[j] != '\n'
}

/// Freedom from line feeds is preserved by concatenation.
proof fn lemma_cat_no_nl(x: Seq<char>, y: Seq<char>)
    requires
        spec_no_nl(x),
        spec_no_nl(y),
    ensures
        spec_no_nl(x + y),
{
    assert forall|j: int| 0 <= j < (x + y).len() implies (x + y)[j] != '\n' by {
        if j < x.len() {
            assert((x + y)[j] == x[j]);
        } else {
            assert((x + y)[j] == y[j - x.len()]);
        }
    }
}

/// A safe cell's token opens with a non-whitespace character that is
/// neither a closing bracket nor a separator, and contains no line
/// feed.
proof fn lemma_token_facts(b: BlockView)
    requires
        spec_as3_cell_safe(b),
    ensures
        spec_as3_token(b).len() > 0,
        !spec_is_ws(spec_as3_token(b)[0]),
        spec_as3_token(b)[0] != ']',
        spec_as3_token(b)[0] != ',',
        spec_no_nl(spec_as3_token(b)),
{
    let t = spec_as3_token(b);
    match b {
        BlockView::Note { text } => {
            let l = crate::block::spec_as_lbl(b);
            assert(t[0] == '"');
            assert forall|j: int| 0 <= j < t.len() implies t[j] != '\n' by {
                if 1 <= j < l.len() + 1 {
                    assert(t[j] == l[j - 1]);
                    if j - 1 >= 5 {
                        assert(l[j - 1] == text[j - 1 - 5]);
                    }
                }
            }
        },
        _ => {
            lemma_opcode_bare(b);
            assert(t[0] == crate::block::spec_as_lbl(b)[0]);
            assert forall|j: int| 0 <= j < t.len() implies t[j] != '\n' by {
                assert(j == 0 || j == 1);
            }
        },
    }
}

/// Taking an element token from a safe cell's token followed by a
/// separator gives back exactly the cell's opcode and the separator
/// onwards.
proof fn lemma_elem_token_of_cell(b: BlockView, rest: Seq<char>)
    requires
        spec_as3_cell_safe(b),
        rest.len() > 0,
        rest[0] == ',' || rest[0] == ']',
    ensures
        spec_elem_token(spec_as3_token(b) + rest) == Ok::<(Seq<char>, Seq<char>), As3ErrorView>(
            (crate::block::spec_as_lbl(b), rest),
        ),
{
    let l = crate::block::spec_as_lbl(b);
    let s = spec_as3_token(b) + rest;
    match b {
        BlockView::Note { text } => {
            assert(s[0] == '"');
            let u = s.skip(1);
            assert(u =~= l + seq!['"'] + rest);
            assert forall|k: int| 0 <= k < l.len() implies u[k] != '"' by {
                assert(u[k] == l[k]);
                if k >= 5 {
                    assert(l[k] == text[k - 5]);
                }
            }
            assert(u[l.len() as int] == '"');
            lemma_find_unique(u, '"', l.len() as int);
            assert(u.take(l.len() as int) =~= l);
            assert(u.skip(l.len() as int + 1) =~= rest);
        },
        _ => {
            lemma_opcode_bare(b);
            assert(s[0] == l[0]);
            assert(s[1] == l[1]);
            assert(s[2] == rest[0]);
            assert(s[0] != '"');
            lemma_find2_unique(s, ',', ']', 2);
            let raw = s.take(2);
            assert(raw =~= l);
            assert(!spec_is_ws(raw[raw.len() - 0 - 1]));
            crate::text::lemma_ws_suffix_unique(raw, 0);
            assert(raw.take(raw.len() - 0) =~= l);
            assert(s.skip(2) =~= rest);
        },
    }
}

/// Parsing an element list that reads as the emitted tokens of one or
/// more safe cells followed by a closing bracket yields exactly those
/// cells and what follows the bracket.
proof fn lemma_parse_elems_of_emit(s: Seq<char>, cells: Seq<BlockView>, tail: Seq<char>)
    requires
        spec_trim_start(s) == spec_emit_elems(cells) + tail,
        cells.len() >= 1,
        forall|i: int| 0 <= i < cells.len() ==> spec_as3_cell_safe(#[trigger] cells[i]),
        tail.len() > 0,
        tail[0] == ']',
    ensures
        spec_parse_elems(s) == Ok::<(Seq<BlockView>, Seq<char>), As3ErrorView>(
            (cells, tail.skip(1)),
        ),
    decreases cells.len(),
{
    let t = spec_trim_start(s);
    let b = cells[0];
    lemma_token_facts(b);
    let tok = spec_as3_token(b);
    if cells.len() == 1 {
        assert(t =~= tok + tail);
        assert(t[0] == tok[0]);
        lemma_elem_token_of_cell(b, tail);
        crate::block::lemma_as_lbl_then_from_lbl(b);
        crate::text::lemma_ws_prefix_unique(tail, 0);
        assert(spec_trim_start(tail) =~= tail);
        assert(seq![b] =~= cells);
    } else {
        let emitrest = spec_emit_elems(cells.skip(1));
        let mid = seq![',', ' '] + emitrest + tail;
        assert(t =~= tok + mid);
        assert(t[0] == tok[0]);
        lemma_elem_token_of_cell(b, mid);
        crate::block::lemma_as_lbl_then_from_lbl(b);
        crate::text::lemma_ws_prefix_unique(mid, 0);
        assert(spec_trim_start(mid) =~= mid);
        let s2 = mid.skip(1);
        assert(cells.skip(1).len() >= 1);
        lemma_token_facts(cells.skip(1)[0]);
        assert(spec_emit_elems(cells.skip(1))[0] == spec_as3_token(cells.skip(1)[0])[0]);
        assert(s2 =~= seq![' '] + (emitrest + tail));
        assert(s2[0] == ' ');
        assert(s2[1] == emitrest[0]);
        crate::text::lemma_ws_prefix_unique(s2, 1);
        assert(spec_trim_start(s2) =~= emitrest + tail);
        assert(forall|i: int| 0 <= i < cells.skip(1).len() ==> spec_as3_cell_safe(
            #[trigger] cells.skip(1)[i],
        ));
        lemma_parse_elems_of_emit(s2, cells.skip(1), tail);
        assert(seq![b] + cells.skip(1) =~= cells);
    }
}

/// The decimal rendering of `n` is a non-empty run of digits.
proof fn lemma_dec_digits_are_digits(n: nat)
    ensures
        spec_dec_digits(n).len() >= 1,
        forall|j: int| 0 <= j < spec_dec_digits(n).len() ==> spec_is_digit(
            #[trigger] spec_dec_digits(n)[j],
        ),
    decreases n,
{
    if n < 10 {
    } else {
        lemma_dec_digits_are_digits(n / 10);
        let d = spec_dec_digits(n / 10);
        assert forall|j: int| 0 <= j < spec_dec_digits(n).len() implies spec_is_digit(
            #[trigger] spec_dec_digits(n)[j],
        ) by {
            if j < d.len() {
                assert(spec_dec_digits(n)[j] == d[j]);
            } else {
                assert(spec_dec_digits(n)[j] == spec_digit_char(n % 10));
            }
        }
    }
}

/// A digit character reads back as the digit it denotes.
proof fn lemma_digit_char_val(d: nat)
    requires
        d < 10,
    ensures
        spec_digit_val(spec_digit_char(d)) == d,
{
}

/// Reading the decimal rendering of `n` back as a number gives `n`.
proof fn lemma_digits_val_of_dec(n: nat)
    ensures
        spec_digits_val(spec_dec_digits(n)) == n,
    decreases n,
{
    if n < 10 {
        lemma_digit_char_val(n);
        assert(spec_digits_val(Seq::<char>::empty()) == 0);
        assert(spec_dec_digits(n).drop_last() =~= Seq::<char>::empty());
        assert(spec_dec_digits(n).last() == spec_digit_char(n));
    } else {
        lemma_digits_val_of_dec(n / 10);
        lemma_digit_char_val(n % 10);
        assert(spec_dec_digits(n).drop_last() =~= spec_dec_digits(n / 10));
        assert(spec_dec_digits(n).last() == spec_digit_char(n % 10));
        vstd::arithmetic::div_mod::lemma_fundamental_div_mod(n as int, 10);
    }
}

/// Skipping past the left part of a concatenation, and then some,
/// lands in the right part.
proof fn lemma_cat_skip(x: Seq<char>, y: Seq<char>, k: int)
    requires
        0 <= k <= y.len(),
    ensures
        (x + y).skip(x.len() + k) == y.skip(k),
{
    assert((x + y).skip(x.len() + k) =~= y.skip(k));
}

/// Taking exactly the left part of a concatenation gives it back.
proof fn lemma_cat_take(x: Seq<char>, y: Seq<char>)
    ensures
        (x + y).take(x.len() as int) == x,
{
    assert((x + y).take(x.len() as int) =~= x);
}

/// The emitted element list of safe cells contains no line feed.
proof fn lemma_emit_elems_no_nl(cells: Seq<BlockView>)
    requires
        forall|i: int| 0 <= i < cells.len() ==> spec_as3_cell_safe(#[trigger] cells[i]),
    ensures
        spec_no_nl(spec_emit_elems(cells)),
    decreases cells.len(),
{
    if cells.len() == 0 {
    } else if cells.len() == 1 {
        lemma_token_facts(cells[0]);
    } else {
        lemma_token_facts(cells[0]);
        assert(forall|i: int| 0 <= i < cells.skip(1).len() ==> spec_as3_cell_safe(
            #[trigger] cells.skip(1)[i],
        ));
        lemma_emit_elems_no_nl(cells.skip(1));
        assert(spec_no_nl(seq![',', ' ']));
        lemma_cat_no_nl(spec_as3_token(cells[0]), seq![',', ' ']);
        lemma_cat_no_nl(spec_as3_token(cells[0]) + seq![',', ' '], spec_emit_elems(cells.skip(1)));
    }
}

/// A row statement line built from a clean identifier and safe cells
/// is non-empty, contains no line feed, and does not end in a carriage
/// return.
proof fn lemma_row_line_clean(id: Seq<char>, row: nat, cells: Seq<BlockView>)
    requires
        spec_no_nl(id),
        forall|i: int| 0 <= i < cells.len() ==> spec_as3_cell_safe(#[trigger] cells[i]),
    ensures
        spec_row_line(id, row, cells).len() > 0,
        spec_no_nl(spec_row_line(id, row, cells)),
        spec_row_line(id, row, cells).last() != '\r',
{
    let ident = crate::spec_lvl_array_ident();
    assert(spec_no_nl(ident));
    assert(spec_no_nl(seq!['[']));
    assert(spec_no_nl(seq![']', '[']));
    assert(spec_no_nl(seq![']', ' ', '=', ' ', '[']));
    assert(spec_no_nl(seq![']', ';']));
    lemma_dec_digits_are_digits(row);
    let dec = spec_dec_digits(row);
    assert forall|j: int| 0 <= j < dec.len() implies dec[j] != '\n' by {
        assert(spec_is_digit(dec[j]));
    }
    lemma_emit_elems_no_nl(cells);
    lemma_cat_no_nl(ident, seq!['[']);
    lemma_cat_no_nl(ident + seq!['['], id);
    lemma_cat_no_nl(ident + seq!['['] + id, seq![']', '[']);
    lemma_cat_no_nl(ident + seq!['['] + id + seq![']', '['], dec);
    lemma_cat_no_nl(ident + seq!['['] + id + seq![']', '['] + dec, seq![']', ' ', '=', ' ', '[']);
    lemma_cat_no_nl(
        ident + seq!['['] + id + seq![']', '['] + dec + seq![']', ' ', '=', ' ', '['],
        spec_emit_elems(cells),
    );
    lemma_cat_no_nl(
        ident + seq!['['] + id + seq![']', '['] + dec + seq![']', ' ', '=', ' ', '[']
            + spec_emit_elems(cells),
        seq![']', ';'],
    );
    let line = spec_row_line(id, row, cells);
    assert(line.last() == ';');
}

/// Parsing a row statement line built from a clean identifier, the
/// demanded row index, and one row of safe cells yields exactly those
/// cells.
/// The row statement line, re-associated into right-nested form for
/// front-to-back consumption.
proof fn lemma_row_line_assoc(id: Seq<char>, row: nat, cells: Seq<BlockView>)
    ensures
        spec_row_line(id, row, cells) == crate::spec_lvl_array_ident() + (seq!['['] + (id + (seq![
            ']',
            '[',
        ] + (spec_dec_digits(row) + (seq![']', ' ', '=', ' ', '['] + (spec_emit_elems(cells)
            + seq![']', ';'])))))),
{
    let ident = crate::spec_lvl_array_ident();
    let dec = spec_dec_digits(row);
    let emit = spec_emit_elems(cells);
    let line = spec_row_line(id, row, cells);
    let e1 = emit + seq![']', ';'];
    let e2 = seq![']', ' ', '=', ' ', '['] + e1;
    let e3 = dec + e2;
    let e4 = seq![']', '['] + e3;
    let e5 = id + e4;
    let e6 = seq!['['] + e5;
    let p5 = ident + seq!['['] + id + seq![']', '['] + dec;
    let p4 = ident + seq!['['] + id + seq![']', '['];
    let p3 = ident + seq!['['] + id;
    let p2 = ident + seq!['['];
    assert(line =~= (p5 + seq![']', ' ', '=', ' ', '[']) + e1);
    assert((p5 + seq![']', ' ', '=', ' ', '[']) + e1 =~= p5 + e2);
    assert(p5 =~= p4 + dec);
    assert((p4 + dec) + e2 =~= p4 + e3);
    assert(p4 =~= p3 + seq![']', '[']);
    assert((p3 + seq![']', '[']) + e3 =~= p3 + e4);
    assert(p3 =~= p2 + id);
    assert((p2 + id) + e4 =~= p2 + e5);
    assert(p2 + e5 =~= ident + e6);
}

/// Walking a row statement's bracketed level identifier consumes
/// exactly it: parsing the whole statement reduces to parsing the row
/// index and what follows.
proof fn lemma_parse_stmt_consumes_id(id: Seq<char>, row: nat, cells: Seq<BlockView>)
    requires
        id.len() > 0,
        forall|j: int| 0 <= j < id.len() ==> id[j] != ']',
    ensures
        spec_parse_stmt(spec_row_line(id, row, cells), row) == spec_parse_row_index(
            (seq![']', '['] + (spec_dec_digits(row) + (seq![']', ' ', '=', ' ', '['] + (
            spec_emit_elems(cells) + seq![']', ';'])))).skip(1),
            row,
        ),
{
    let ident = crate::spec_lvl_array_ident();
    let dec = spec_dec_digits(row);
    let emit = spec_emit_elems(cells);
    let line = spec_row_line(id, row, cells);
    let e1 = emit + seq![']', ';'];
    let e2 = seq![']', ' ', '=', ' ', '['] + e1;
    let e3 = dec + e2;
    let e4 = seq![']', '['] + e3;
    let e5 = id + e4;
    let e6 = seq!['['] + e5;
    lemma_row_line_assoc(id, row, cells);
    assert(line == ident + e6);
    lemma_cat_skip(ident, e6, 0);
    assert(e6.skip(0) =~= e6);
    let s0 = line.skip(8);
    assert(s0 == e6);
    assert(s0[0] == '[');
    lemma_cat_skip(seq!['['], e5, 0);
    assert(e5.skip(0) =~= e5);
    let body = s0.skip(1);
    assert(body == e5);
    assert forall|k: int| 0 <= k < id.len() implies body[k] != ']' by {
        assert(body[k] == id[k]);
    }
    assert(body[id.len() as int] == e4[0]);
    assert(e4[0] == ']');
    lemma_find_unique(body, ']', id.len() as int);
    lemma_cat_skip(id, e4, 1);
    assert(body.skip(id.len() as int + 1) == e4.skip(1));
}

/// Walking the bracketed row index, written as the decimal rendering
/// of the demanded value, consumes exactly it: parsing reduces to the
/// assignment part.
proof fn lemma_parse_row_index_consumes(row: nat, x: Seq<char>)
    ensures
        spec_parse_row_index((seq![']', '['] + (spec_dec_digits(row) + (seq![']'] + x))).skip(1), row)
            == spec_parse_assign(x),
{
    let dec = spec_dec_digits(row);
    lemma_dec_digits_are_digits(row);
    let e2 = seq![']'] + x;
    let e3 = dec + e2;
    let e4 = seq![']', '['] + e3;
    let s = e4.skip(1);
    assert(s =~= seq!['['] + e3);
    assert(s[0] == '[');
    crate::text::lemma_ws_prefix_unique(s, 0);
    assert(s.skip(0) =~= s);
    let s1 = spec_trim_start(s);
    assert(s1 == s);
    lemma_cat_skip(seq!['['], e3, 0);
    assert(e3.skip(0) =~= e3);
    let s1b = s1.skip(1);
    assert(s1b =~= e3);
    assert(s1b[0] == dec[0]);
    assert(spec_is_digit(dec[0]));
    assert(!spec_is_ws(s1b[0]));
    crate::text::lemma_ws_prefix_unique(s1b, 0);
    assert(s1b.skip(0) =~= s1b);
    let s2 = spec_trim_start(s1b);
    assert(s2 == s1b);
    assert forall|k: int| 0 <= k < dec.len() implies spec_is_digit(s2[k]) by {
        assert(s2[k] == dec[k]);
    }
    assert(s2[dec.len() as int] == e2[0]);
    assert(e2[0] == ']');
    lemma_digit_run_unique(s2, dec.len() as int);
    lemma_cat_take(dec, e2);
    lemma_digits_val_of_dec(row);
    lemma_cat_skip(dec, e2, 0);
    assert(e2.skip(0) =~= e2);
    let s2b = s2.skip(dec.len() as int);
    assert(s2b == e2);
    crate::text::lemma_ws_prefix_unique(s2b, 0);
    assert(s2b.skip(0) =~= s2b);
    let s3 = spec_trim_start(s2b);
    assert(s3 == s2b);
    assert(s3[0] == ']');
    lemma_cat_skip(seq![']'], x, 0);
    assert(x.skip(0) =~= x);
    assert(s3.skip(1) == x);
}

/// Walking ` = [` consumes exactly it: parsing the assignment reduces
/// to parsing the statement's right side.
proof fn lemma_parse_assign_consumes(y: Seq<char>)
    ensures
        spec_parse_assign(seq![' ', '=', ' ', '['] + y) == spec_parse_stmt_rhs(y),
{
    let s = seq![' ', '=', ' ', '['] + y;
    assert(s[0] == ' ');
    assert(s[1] == '=');
    crate::text::lemma_ws_prefix_unique(s, 1);
    let s4 = spec_trim_start(s);
    assert(s4 =~= seq!['=', ' ', '['] + y);
    assert(s4[0] == '=');
    let s4b = s4.skip(1);
    assert(s4b =~= seq![' ', '['] + y);
    assert(s4b[0] == ' ');
    assert(s4b[1] == '[');
    crate::text::lemma_ws_prefix_unique(s4b, 1);
    let s5 = spec_trim_start(s4b);
    assert(s5 =~= seq!['['] + y);
    assert(s5[0] == '[');
    lemma_cat_skip(seq!['['], y, 0);
    assert(y.skip(0) =~= y);
    assert(s5.skip(1) == y);
}

/// Walking a row statement's whole left side, the `=`, and the
/// opening bracket consumes exactly the non-element text: parsing the
/// statement reduces to parsing its element list.
proof fn lemma_parse_stmt_splits(id: Seq<char>, row: nat, cells: Seq<BlockView>)
    requires
        id.len() > 0,
        forall|j: int| 0 <= j < id.len() ==> id[j] != ']',
    ensures
        spec_parse_stmt(spec_row_line(id, row, cells), row) == spec_parse_stmt_rhs(
            spec_emit_elems(cells) + seq![']', ';'],
        ),
{
    let emit = spec_emit_elems(cells);
    let e1 = emit + seq![']', ';'];
    let x = seq![' ', '=', ' ', '['] + e1;
    lemma_parse_stmt_consumes_id(id, row, cells);
    assert(seq![']', ' ', '=', ' ', '['] + e1 =~= seq![']'] + x);
    lemma_parse_row_index_consumes(row, x);
    lemma_parse_assign_consumes(e1);
}

proof fn lemma_parse_stmt_of_row(id: Seq<char>, row: nat, cells: Seq<BlockView>)
    requires
        id.len() > 0,
        forall|j: int| 0 <= j < id.len() ==> id[j] != ']',
        cells.len() == LEVEL_WIDTH,
        forall|i: int| 0 <= i < cells.len() ==> spec_as3_cell_safe(#[trigger] cells[i]),
    ensures
        spec_parse_stmt(spec_row_line(id, row, cells), row) == Ok::<Seq<BlockView>, As3ErrorView>(
            cells,
        ),
{
    lemma_parse_stmt_splits(id, row, cells);
    let emit = spec_emit_elems(cells);
    let e1 = emit + seq![']', ';'];
    lemma_token_facts(cells[0]);
    assert(emit[0] == spec_as3_token(cells[0])[0]);
    crate::text::lemma_ws_prefix_unique(e1, 0);
    assert(e1.skip(0) =~= e1);
    assert(spec_trim_start(e1) == emit + seq![']', ';']);
    lemma_parse_elems_of_emit(e1, cells, seq![']', ';']);
    let tail = seq![']', ';'].skip(1);
    assert(tail =~= seq![';']);
    crate::text::lemma_ws_prefix_unique(tail, 0);
    assert(tail.skip(0) =~= tail);
    assert(spec_trim_start(tail) == tail);
    assert(tail[0] == ';');
}

/// The document encoded from row `r` on decodes, with the running
/// counter at `r`, to exactly the cells from row `r` on.
proof fn lemma_as3_rows_of_encode(id: Seq<char>, cells: Seq<BlockView>, r: nat)
    requires
        r <= crate::LEVEL_HEIGHT,
        cells.len() == LEVEL_SIZE,
        id.len() > 0,
        forall|j: int| 0 <= j < id.len() ==> id[j] != ']' && id[j] != '\n',
        forall|i: int| 0 <= i < cells.len() ==> spec_as3_cell_safe(#[trigger] cells[i]),
    ensures
        spec_as3_rows(spec_lines(spec_encode_rows(id, cells, r)), r) == Ok::<
            Seq<BlockView>,
            As3ErrorView,
        >(cells.subrange(r * LEVEL_WIDTH, LEVEL_SIZE as int)),
    decreases crate::LEVEL_HEIGHT - r,
{
    if r >= crate::LEVEL_HEIGHT {
        assert(spec_encode_rows(id, cells, r).len() == 0);
        assert(cells.subrange(r * LEVEL_WIDTH, LEVEL_SIZE as int) =~= Seq::<BlockView>::empty());
    } else {
        let rowc = cells.subrange(r * LEVEL_WIDTH, r * LEVEL_WIDTH + LEVEL_WIDTH);
        assert(forall|i: int| 0 <= i < rowc.len() ==> spec_as3_cell_safe(#[trigger] rowc[i]));
        let line = spec_row_line(id, r, rowc);
        let rest_text = spec_encode_rows(id, cells, r + 1);
        lemma_row_line_clean(id, r, rowc);
        crate::text::lemma_lines_prepend(line, rest_text);
        let ls = spec_lines(spec_encode_rows(id, cells, r));
        assert(ls == seq![line] + spec_lines(rest_text));
        assert(ls[0] == line);
        assert(ls.skip(1) =~= spec_lines(rest_text));
        assert(line[0] == crate::spec_lvl_array_ident()[0]);
        assert(!spec_is_ws(line[0]));
        crate::text::lemma_ws_prefix_unique(line, 0);
        assert(spec_trim_start(line) =~= line);
        assert(line.take(8) =~= crate::spec_lvl_array_ident());
        assert(spec_is_row_line(line));
        lemma_parse_stmt_of_row(id, r, rowc);
        lemma_as3_rows_of_encode(id, cells, r + 1);
        assert(rowc + cells.subrange((r + 1) * LEVEL_WIDTH, LEVEL_SIZE as int) =~= cells.subrange(
            r * LEVEL_WIDTH,
            LEVEL_SIZE as int,
        ));
    }
}

/// A script-format encoding is detected as the script format: after
/// trimming, its first line opens with the `lvlArray` identifier and
/// is no opcode.
proof fn lemma_guess_encode_as3(id: Seq<char>, cells: Seq<BlockView>)
    requires
        id.len() > 0,
        forall|j: int| 0 <= j < id.len() ==> id[j] != ']' && id[j] != '\n',
        cells.len() == LEVEL_SIZE,
        forall|i: int| 0 <= i < cells.len() ==> spec_as3_cell_safe(#[trigger] cells[i]),
    ensures
        crate::spec_guess_format(spec_encode_as3(id, cells)) == Some(crate::FileFormat::AS3),
{
    let ident = crate::spec_lvl_array_ident();
    let rowc0 = cells.subrange(0 * LEVEL_WIDTH, 0 * LEVEL_WIDTH + LEVEL_WIDTH);
    let rowc1 = cells.subrange(1 * LEVEL_WIDTH, 1 * LEVEL_WIDTH + LEVEL_WIDTH);
    let line0 = spec_row_line(id, 0, rowc0);
    let rest = spec_encode_rows(id, cells, 1);
    let s = spec_encode_as3(id, cells);
    assert(s == line0 + seq!['\n'] + rest);
    assert(forall|i: int| 0 <= i < rowc0.len() ==> spec_as3_cell_safe(#[trigger] rowc0[i]));
    lemma_row_line_clean(id, 0, rowc0);
    assert(line0[0] == ident[0]);
    assert(!spec_is_ws(line0[0]));
    assert(s[0] == line0[0]);
    crate::text::lemma_ws_prefix_unique(s, 0);
    assert(rest == spec_row_line(id, 1, rowc1) + seq!['\n'] + spec_encode_rows(id, cells, 2));
    assert(spec_row_line(id, 1, rowc1)[0] == ident[0]);
    assert(rest[0] == spec_row_line(id, 1, rowc1)[0]);
    let p = line0.len() + 1;
    assert(s[p as int] == rest[0]);
    assert(!spec_is_ws(s[p as int]));
    crate::text::lemma_ws_suffix(s);
    let suf = crate::text::spec_ws_suffix_len(s);
    let q = s.len() - suf;
    if q <= p {
        assert(spec_is_ws(s[p as int]));
    }
    assert(q > p);
    assert(spec_trim_start(s) == s.skip(0));
    assert(s.skip(0) =~= s);
    assert(crate::text::spec_trim(s) == s.take(q as int));
    assert(s.take(q as int) =~= line0 + seq!['\n'] + rest.take(q - p));
    crate::text::lemma_lines_prepend(line0, rest.take(q - p));
    let ls = spec_lines(crate::text::spec_trim(s));
    assert(ls == seq![line0] + spec_lines(rest.take(q - p)));
    assert(ls[0] == line0);
    assert(line0.len() > 8);
    assert(line0[0] == 'l');
    if crate::block::spec_is_note(line0) {
        assert(line0.subrange(0, 5)[0] == line0[0]);
        assert(crate::block::spec_note_prefix()[0] == 'N');
    }
    assert(spec_from_lbl(line0) is None);
    assert(line0.take(8) =~= ident);
    assert(spec_starts_with(line0, ident));
}

/// Round trip through the script format under format detection: any
/// full grid of safe cells, encoded under a clean identifier, is
/// detected as the script format and decodes back unchanged.
pub proof fn lemma_decode_any_as3_round_trip(id: Seq<char>, cells: Seq<BlockView>)
    requires
        id.len() > 0,
        forall|j: int| 0 <= j < id.len() ==> id[j] != ']' && id[j] != '\n',
        cells.len() == LEVEL_SIZE,
        forall|i: int| 0 <= i < cells.len() ==> spec_as3_cell_safe(#[trigger] cells[i]),
    ensures
        crate::spec_decode_any(spec_encode_as3(id, cells)) == Some(cells),
{
    lemma_guess_encode_as3(id, cells);
    lemma_as3_round_trip(id, cells);
}

/// Round trip through the script format: any full grid of safe cells,
/// encoded under a clean, non-empty level identifier (no closing
/// bracket, no line feed) and decoded again, comes back unchanged.
pub proof fn lemma_as3_round_trip(id: Seq<char>, cells: Seq<BlockView>)
    requires
        id.len() > 0,
        forall|j: int| 0 <= j < id.len() ==> id[j] != ']' && id[j] != '\n',
        cells.len() == LEVEL_SIZE,
        forall|i: int| 0 <= i < cells.len() ==> spec_as3_cell_safe(#[trigger] cells[i]),
    ensures
        spec_decode_as3(spec_encode_as3(id, cells)) == Ok::<Seq<BlockView>, As3ErrorView>(cells),
{
    lemma_as3_rows_of_encode(id, cells, 0);
    assert(cells.subrange(0, LEVEL_SIZE as int) =~= cells);
}

} // verus!
