//! The scanner over the compiler's captured text output: it splits the
//! text into per-contract sections and extracts each section's name,
//! bytecode, gas costs and ABI payload.
//!
//! Every expected label is matched verbatim after trimming; a mismatch is
//! a fatal format error naming the expected and the actual text.

use crate::abi::Abi;
use crate::abi::AbiV;
use crate::abi::SchemaError;
use crate::abi::SchemaErrorV;
use crate::contract::GasEstimates;
use crate::contract::GasV;
use crate::contract::StringMap;
use crate::contract::map_insert;
use crate::contract::sv_pairs;
use crate::json::is_ws;
use crate::json::skip_ws;
use crate::text::str_eq;
use vstd::prelude::*;

verus! {

/// An expected piece of output and the text found instead.
pub struct FormatErrorV {
    pub expected: Seq<char>,
    pub found: Seq<char>,
}

/// An expected piece of output and the text found instead.
#[derive(Debug, PartialEq)]
pub struct FormatError {
    pub expected: String,
    pub found: String,
}

impl View for FormatError {
    type V = FormatErrorV;

    open spec fn view(&self) -> FormatErrorV {
        FormatErrorV { expected: self.expected@, found: self.found@ }
    }
}

/// Why a whole output parse failed.
pub enum ParseErrorV {
    Format(FormatErrorV),
    Schema(SchemaErrorV),
}

/// Why a whole output parse failed: a line did not match the expected
/// grammar, or a section's ABI payload did not decode.
#[derive(Debug, PartialEq)]
pub enum ParseError {
    Format(FormatError),
    Schema(SchemaError),
}

impl View for ParseError {
    type V = ParseErrorV;

    open spec fn view(&self) -> ParseErrorV {
        match self {
            ParseError::Format(f) => ParseErrorV::Format(f@),
            ParseError::Schema(e) => ParseErrorV::Schema(e.deep_view()),
        }
    }
}

/// One section's payload, as correlated by a single parse.
pub struct SolcContractV {
    pub name: Seq<char>,
    pub abi: Seq<AbiV>,
    pub bin: Seq<char>,
    pub gas_estimates: Option<GasV>,
}

/// One section's payload, as correlated by a single parse.
#[derive(Debug, PartialEq)]
pub struct SolcContract {
    pub name: String,
    pub abi: Vec<Abi>,
    pub bin: String,
    pub gas_estimates: Option<GasEstimates>,
}

impl View for SolcContract {
    type V = SolcContractV;

    open spec fn view(&self) -> SolcContractV {
        SolcContractV {
            name: self.name@,
            abi: self.abi.deep_view(),
            bin: self.bin@,
            gas_estimates: match &self.gas_estimates {
                None => None,
                Some(g) => Some(g@),
            },
        }
    }
}

/// The index of the first line feed, or the input's length.
pub open spec fn nl_idx(s: Seq<char>) -> int
    decreases s.len(),
{
    if s.len() == 0 {
        0
    } else if s[0] == '\n' {
        0
    } else {
        1 + nl_idx(s.drop_first())
    }
}

pub proof fn lemma_nl_idx(s: Seq<char>)
    ensures
        0 <= nl_idx(s) <= s.len(),
    decreases s.len(),
{
    if s.len() > 0 && s[0] != '\n' {
        lemma_nl_idx(s.drop_first());
    }
}

/// A line without its trailing carriage return.
pub open spec fn strip_cr(s: Seq<char>) -> Seq<char> {
    if s.len() > 0 && s[s.len() - 1] == '\r' {
        s.drop_last()
    } else {
        s
    }
}

/// The lines of the text: split at line feeds, each without a trailing
/// carriage return, with no final empty line for a trailing line feed.
pub open spec fn split_lines(s: Seq<char>) -> Seq<Seq<char>>
    decreases s.len(),
    via split_lines_dec
{
    if s.len() == 0 {
        Seq::empty()
    } else {
        let i = nl_idx(s);
        if i >= s.len() {
            seq![strip_cr(s)]
        } else {
            seq![strip_cr(s.take(i))] + split_lines(s.skip(i + 1))
        }
    }
}

#[via_fn]
proof fn split_lines_dec(s: Seq<char>) {
    lemma_nl_idx(s);
}

/// The input without trailing whitespace.
pub open spec fn trim_end(s: Seq<char>) -> Seq<char>
    decreases s.len(),
{
    if s.len() > 0 && is_ws(s[s.len() - 1]) {
        trim_end(s.drop_last())
    } else {
        s
    }
}

/// The input without leading or trailing whitespace.
pub open spec fn trim(s: Seq<char>) -> Seq<char> {
    trim_end(skip_ws(s))
}

/// Whether the character is a header mark.
pub open spec fn is_mark(c: char) -> bool {
    c == ' ' || c == '='
}

/// The input without leading header marks.
pub open spec fn skip_marks(s: Seq<char>) -> Seq<char>
    decreases s.len(),
{
    if s.len() > 0 && is_mark(s[0]) {
        skip_marks(s.drop_first())
    } else {
        s
    }
}

/// The input without trailing header marks.
pub open spec fn skip_marks_end(s: Seq<char>) -> Seq<char>
    decreases s.len(),
{
    if s.len() > 0 && is_mark(s[s.len() - 1]) {
        skip_marks_end(s.drop_last())
    } else {
        s
    }
}

/// The input without surrounding header marks.
pub open spec fn trim_marks(s: Seq<char>) -> Seq<char> {
    skip_marks_end(skip_marks(s))
}

/// What follows the last colon; the whole input when it has none.
pub open spec fn after_last_colon(s: Seq<char>) -> Seq<char>
    decreases s.len(),
{
    if s.len() == 0 {
        s
    } else if s[s.len() - 1] == ':' {
        s.skip(s.len() as int)
    } else {
        after_last_colon(s.drop_last()).push(s[s.len() - 1])
    }
}

/// The seven-mark run that delimits a section header.
pub open spec fn header_marks() -> Seq<char> {
    seq!['=', '=', '=', '=', '=', '=', '=']
}

/// Whether a trimmed line has the `======= ... =======` header shape.
pub open spec fn header_ok(t: Seq<char>) -> bool {
    &&& t.len() >= 15
    &&& t.take(7) == header_marks()
    &&& t.skip(t.len() - 7) == header_marks()
}

/// The contract name a header line carries: the text after the final
/// colon, with surrounding marks trimmed. The header must carry the mark
/// runs and a non-empty name.
pub open spec fn parse_header(line: Seq<char>) -> Option<Seq<char>> {
    if !header_ok(trim(line)) {
        None
    } else {
        let name = after_last_colon(trim_marks(line));
        if name.len() == 0 {
            None
        } else {
            Some(name)
        }
    }
}

/// The gas label line.
pub open spec fn gas_label() -> Seq<char> {
    seq!['G', 'a', 's', ' ', 'e', 's', 't', 'i', 'm', 'a', 't', 'i', 'o', 'n', ':']
}

/// The construction label line.
pub open spec fn construction_label() -> Seq<char> {
    seq!['c', 'o', 'n', 's', 't', 'r', 'u', 'c', 't', 'i', 'o', 'n', ':']
}

/// The external label line.
pub open spec fn external_label() -> Seq<char> {
    seq!['e', 'x', 't', 'e', 'r', 'n', 'a', 'l', ':']
}

/// The internal label line.
pub open spec fn internal_label() -> Seq<char> {
    seq!['i', 'n', 't', 'e', 'r', 'n', 'a', 'l', ':']
}

/// The binary label line.
pub open spec fn binary_label() -> Seq<char> {
    seq!['B', 'i', 'n', 'a', 'r', 'y', ':']
}

/// The ABI label line.
pub open spec fn abi_label() -> Seq<char> {
    seq![
        'C', 'o', 'n', 't', 'r', 'a', 'c', 't', ' ', 'J', 'S', 'O', 'N', ' ', 'A', 'B', 'I',
    ]
}

/// The index of the first occurrence of `c`, or the input's length.
pub open spec fn char_idx(s: Seq<char>, c: char) -> int
    decreases s.len(),
{
    if s.len() == 0 {
        0
    } else if s[0] == c {
        0
    } else {
        1 + char_idx(s.drop_first(), c)
    }
}

pub proof fn lemma_char_idx(s: Seq<char>, c: char)
    ensures
        0 <= char_idx(s, c) <= s.len(),
        char_idx(s, c) < s.len() ==> s[char_idx(s, c)] == c,
        forall|j: int| 0 <= j < char_idx(s, c) ==> s[j] != c,
    decreases s.len(),
{
    if s.len() > 0 && s[0] != c {
        lemma_char_idx(s.drop_first(), c);
        assert forall|j: int| 0 <= j < char_idx(s, c) implies s[j] != c by {
            if j > 0 {
                assert(s.drop_first()[j - 1] != c);
            }
        }
    }
}

/// The cost a construction line carries: what follows the last equals
/// sign, trimmed.
pub open spec fn after_last_eq(s: Seq<char>) -> Seq<char>
    decreases s.len(),
{
    if s.len() == 0 {
        s
    } else if s[s.len() - 1] == '=' {
        s.skip(s.len() as int)
    } else {
        after_last_eq(s.drop_last()).push(s[s.len() - 1])
    }
}

/// One `name(signature): cost` row: the method name and the cost text.
/// The name is what precedes the first parenthesis of what precedes the
/// first colon; the cost is the text between the first and second colon,
/// trimmed. A line with no colon does not match.
pub open spec fn parse_cost_row(line: Seq<char>) -> Option<(Seq<char>, Seq<char>)> {
    let t = trim(line);
    if char_idx(t, ':') >= t.len() {
        None
    } else {
        let head = t.take(char_idx(t, ':'));
        let key = head.take(char_idx(head, '('));
        let rest = t.skip(char_idx(t, ':') + 1);
        let value = trim(rest.take(char_idx(rest, ':')));
        Some((key, value))
    }
}

/// Scans gas rows until the binary label or the end of the text. Rows
/// fill the external table until the internal label switches the target.
pub open spec fn scan_gas_rows(
    lines: Seq<Seq<char>>,
    i: int,
    ext: Seq<(Seq<char>, Seq<char>)>,
    int_rows: Seq<(Seq<char>, Seq<char>)>,
    in_internal: bool,
) -> Result<(Seq<(Seq<char>, Seq<char>)>, Seq<(Seq<char>, Seq<char>)>, int), FormatErrorV>
    decreases lines.len() - i,
{
    if i < 0 || i >= lines.len() {
        Ok((ext, int_rows, if i < 0 {
            0
        } else {
            i
        }))
    } else if trim(lines[i]) == binary_label() {
        Ok((ext, int_rows, i))
    } else if trim(lines[i]) == internal_label() {
        scan_gas_rows(lines, i + 1, ext, int_rows, true)
    } else {
        match parse_cost_row(lines[i]) {
            None => Err(
                FormatErrorV {
                    expected: seq!['<', 'n', 'a', 'm', 'e', '>', '(', ')', ':', ' ', '<', 'c', 'o', 's', 't', '>'],
                    found: lines[i],
                },
            ),
            Some((key, value)) => {
                if in_internal {
                    scan_gas_rows(lines, i + 1, ext, map_insert(int_rows, key, value), true)
                } else {
                    scan_gas_rows(lines, i + 1, map_insert(ext, key, value), int_rows, false)
                }
            },
        }
    }
}

/// A label line: present and matching verbatim after trimming, or a
/// format error naming the expectation.
pub open spec fn expect_label(lines: Seq<Seq<char>>, i: int, label: Seq<char>) -> Option<
    FormatErrorV,
> {
    if i >= lines.len() {
        Some(FormatErrorV { expected: label, found: Seq::empty() })
    } else if trim(lines[i]) != label {
        Some(FormatErrorV { expected: label, found: lines[i] })
    } else {
        None
    }
}

/// Scans the gas block of one section: the labels, the construction
/// cost, and the cost rows.
pub open spec fn scan_gas(lines: Seq<Seq<char>>, i: int) -> Result<(GasV, int), FormatErrorV> {
    match expect_label(lines, i, gas_label()) {
        Some(e) => Err(e),
        None => match expect_label(lines, i + 1, construction_label()) {
            Some(e) => Err(e),
            None => if i + 2 >= lines.len() {
                Err(
                    FormatErrorV {
                        expected: seq!['<', 'a', 'm', 'o', 'u', 'n', 't', '>', ' ', '=', ' ', '<', 't', 'o', 't', 'a', 'l', '>'],
                        found: Seq::empty(),
                    },
                )
            } else {
                let construction = trim(after_last_eq(lines[i + 2]));
                match expect_label(lines, i + 3, external_label()) {
                    Some(e) => Err(e),
                    None => match scan_gas_rows(lines, i + 4, Seq::empty(), Seq::empty(), false) {
                        Err(e) => Err(e),
                        Ok((ext, int_rows, next)) => Ok(
                            (GasV { construction, external: ext, internal: int_rows }, next),
                        ),
                    },
                }
            },
        },
    }
}

/// Scans one whole section beginning at the header line, and returns the
/// section and the index after it.
pub open spec fn scan_section(lines: Seq<Seq<char>>, i: int, gas: bool, bin: bool, abi: bool) -> Result<
    (SolcContractV, int),
    ParseErrorV,
> {
    match parse_header(lines[i]) {
        None => Err(
            ParseErrorV::Format(
                FormatErrorV { expected: header_shape(), found: lines[i] },
            ),
        ),
        Some(name) => {
            let after_gas = if gas {
                scan_gas(lines, i + 1)
            } else {
                Ok((GasV { construction: Seq::empty(), external: Seq::empty(), internal: Seq::empty() }, i + 1))
            };
            match after_gas {
                Err(e) => Err(ParseErrorV::Format(e)),
                Ok((g, j)) => {
                    let bin_step = if bin {
                        match expect_label(lines, j, binary_label()) {
                            Some(e) => Err(e),
                            None => if j + 1 >= lines.len() {
                                Err(
                                    FormatErrorV {
                                        expected: seq!['<', 'b', 'y', 't', 'e', 'c', 'o', 'd', 'e', '>'],
                                        found: Seq::empty(),
                                    },
                                )
                            } else {
                                Ok((lines[j + 1], j + 2))
                            },
                        }
                    } else {
                        Ok((Seq::<char>::empty(), j))
                    };
                    match bin_step {
                        Err(e) => Err(ParseErrorV::Format(e)),
                        Ok((bin_text, k)) => {
                            let abi_step = if abi {
                                match expect_label(lines, k, abi_label()) {
                                    Some(e) => Err(ParseErrorV::Format(e)),
                                    None => if k + 1 >= lines.len() {
                                        Err(
                                            ParseErrorV::Format(
                                                FormatErrorV {
                                                    expected: seq!['<', 'a', 'b', 'i', '>'],
                                                    found: Seq::empty(),
                                                },
                                            ),
                                        )
                                    } else {
                                        match crate::abi::abi_from_text(lines[k + 1]) {
                                            Err(e) => Err(ParseErrorV::Schema(e)),
                                            Ok(entries) => Ok((entries, k + 2)),
                                        }
                                    },
                                }
                            } else {
                                Ok((Seq::<AbiV>::empty(), k))
                            };
                            match abi_step {
                                Err(e) => Err(e),
                                Ok((entries, m)) => Ok(
                                    (
                                        SolcContractV {
                                            name,
                                            abi: entries,
                                            bin: bin_text,
                                            gas_estimates: if gas {
                                                Some(g)
                                            } else {
                                                None
                                            },
                                        },
                                        m,
                                    ),
                                ),
                            }
                        },
                    }
                },
            }
        },
    }
}

/// The header shape named in a header format error.
pub open spec fn header_shape() -> Seq<char> {
    seq![
        '=', '=', '=', '=', '=', '=', '=', ' ', '<', 'p', 'a', 't', 'h', '>', ':', '<', 'n',
        'a', 'm', 'e', '>', ' ', '=', '=', '=', '=', '=', '=', '=',
    ]
}

/// Scans all sections: each one separator line, a header, and the
/// requested blocks. The end of the text ends the scan.
pub open spec fn scan_sections(
    lines: Seq<Seq<char>>,
    i: int,
    gas: bool,
    bin: bool,
    abi: bool,
) -> Result<Seq<SolcContractV>, ParseErrorV>
    decreases lines.len() - i,
    via scan_sections_dec
{
    if i < 0 || i >= lines.len() {
        Ok(Seq::empty())
    } else if i + 1 >= lines.len() {
        Err(
            ParseErrorV::Format(
                FormatErrorV { expected: header_shape(), found: Seq::empty() },
            ),
        )
    } else {
        match scan_section(lines, i + 1, gas, bin, abi) {
            Err(e) => Err(e),
            Ok((c, next)) => {
                let bumped = if next <= i + 1 {
                    i + 2
                } else {
                    next
                };
                let n = if bumped > lines.len() {
                    lines.len() as int
                } else {
                    bumped
                };
                match scan_sections(lines, n, gas, bin, abi) {
                    Err(e) => Err(e),
                    Ok(cs) => Ok(seq![c] + cs),
                }
            },
        }
    }
}

#[via_fn]
proof fn scan_sections_dec(lines: Seq<Seq<char>>, i: int, gas: bool, bin: bool, abi: bool) {
}

/// The whole-output parse: the lines of the text, scanned section by
/// section with every output kind requested.
pub open spec fn parse_output_spec(s: Seq<char>) -> Result<Seq<SolcContractV>, ParseErrorV> {
    scan_sections(split_lines(s), 0, true, true, true)
}

/// The labels, as string literals.
pub proof fn lemma_label_lits()
    ensures
        "Gas estimation:"@ == gas_label(),
        "construction:"@ == construction_label(),
        "external:"@ == external_label(),
        "internal:"@ == internal_label(),
        "Binary:"@ == binary_label(),
        "Contract JSON ABI"@ == abi_label(),
        "======= <path>:<name> ======="@ == header_shape(),
        "<name>(): <cost>"@ == (seq![
            '<', 'n', 'a', 'm', 'e', '>', '(', ')', ':', ' ', '<', 'c', 'o', 's', 't', '>',
        ]),
        "<amount> = <total>"@ == (seq![
            '<', 'a', 'm', 'o', 'u', 'n', 't', '>', ' ', '=', ' ', '<', 't', 'o', 't', 'a', 'l', '>',
        ]),
        "<bytecode>"@ == (seq!['<', 'b', 'y', 't', 'e', 'c', 'o', 'd', 'e', '>']),
        "<abi>"@ == (seq!['<', 'a', 'b', 'i', '>']),
{
    reveal_strlit("Gas estimation:");
    reveal_strlit("construction:");
    reveal_strlit("external:");
    reveal_strlit("internal:");
    reveal_strlit("Binary:");
    reveal_strlit("Contract JSON ABI");
    reveal_strlit("======= <path>:<name> =======");
    reveal_strlit("<name>(): <cost>");
    reveal_strlit("<amount> = <total>");
    reveal_strlit("<bytecode>");
    reveal_strlit("<abi>");
    assert("Gas estimation:"@ =~= gas_label());
    assert("construction:"@ =~= construction_label());
    assert("external:"@ =~= external_label());
    assert("internal:"@ =~= internal_label());
    assert("Binary:"@ =~= binary_label());
    assert("Contract JSON ABI"@ =~= abi_label());
    assert("======= <path>:<name> ======="@ =~= header_shape());
    assert("<name>(): <cost>"@ =~= seq![
        '<', 'n', 'a', 'm', 'e', '>', '(', ')', ':', ' ', '<', 'c', 'o', 's', 't', '>',
    ]);
    assert("<amount> = <total>"@ =~= seq![
        '<', 'a', 'm', 'o', 'u', 'n', 't', '>', ' ', '=', ' ', '<', 't', 'o', 't', 'a', 'l', '>',
    ]);
    assert("<bytecode>"@ =~= seq!['<', 'b', 'y', 't', 'e', 'c', 'o', 'd', 'e', '>']);
    assert("<abi>"@ =~= seq!['<', 'a', 'b', 'i', '>']);
}

/// Whether the character is whitespace.
fn ws_char(c: char) -> (r: bool)
    ensures
        r == is_ws(c),
{
    c == ' ' || c == '\n' || c == '\t' || c == '\r'
}

/// Whether the character is a header mark.
fn mark_char(c: char) -> (r: bool)
    ensures
        r == is_mark(c),
{
    c == ' ' || c == '='
}

/// The input slice without trailing whitespace.
fn trim_end_exec(s: &[char]) -> (r: &[char])
    ensures
        r@ == trim_end(s@),
{
    let mut cur: &[char] = s;
    while cur.len() > 0 && ws_char(cur[cur.len() - 1])
        invariant
            trim_end(s@) == trim_end(cur@),
        decreases cur@.len(),
    {
        proof {
            assert(cur@.drop_last() =~= cur@.subrange(0, cur@.len() - 1));
        }
        cur = vstd::slice::slice_subrange(cur, 0, cur.len() - 1);
    }
    cur
}

/// The input slice without surrounding whitespace.
fn trim_exec(s: &[char]) -> (r: &[char])
    ensures
        r@ == trim(s@),
{
    trim_end_exec(crate::json::skip_ws_exec(s))
}

/// Whether the trimmed slice equals the given text.
fn slice_is(s: &[char], lit: &str) -> (r: bool)
    ensures
        r == (s@ == lit@),
{
    let t = crate::text::chars_to_string(s);
    str_eq(t.as_str(), lit)
}

/// The input slice without leading header marks.
fn skip_marks_exec(s: &[char]) -> (r: &[char])
    ensures
        r@ == skip_marks(s@),
{
    let mut cur: &[char] = s;
    while cur.len() > 0 && mark_char(cur[0])
        invariant
            skip_marks(s@) == skip_marks(cur@),
        decreases cur@.len(),
    {
        proof {
            assert(cur@.drop_first() =~= cur@.subrange(1, cur@.len() as int));
        }
        cur = vstd::slice::slice_subrange(cur, 1, cur.len());
    }
    cur
}

/// The input slice without trailing header marks.
fn skip_marks_end_exec(s: &[char]) -> (r: &[char])
    ensures
        r@ == skip_marks_end(s@),
{
    let mut cur: &[char] = s;
    while cur.len() > 0 && mark_char(cur[cur.len() - 1])
        invariant
            skip_marks_end(s@) == skip_marks_end(cur@),
        decreases cur@.len(),
    {
        proof {
            assert(cur@.drop_last() =~= cur@.subrange(0, cur@.len() - 1));
        }
        cur = vstd::slice::slice_subrange(cur, 0, cur.len() - 1);
    }
    cur
}

/// Where the last colon of the input stands, and what follows it.
pub proof fn lemma_after_last_colon(s: Seq<char>)
    ensures
        (forall|j: int| 0 <= j < s.len() ==> s[j] != ':') ==> after_last_colon(s) == s,
        forall|p: int|
            0 <= p < s.len() && s[p] == ':' && (forall|j: int| p < j < s.len() ==> s[j] != ':')
                ==> after_last_colon(s) == #[trigger] s.skip(p + 1),
    decreases s.len(),
{
    if s.len() == 0 {
    } else if s[s.len() - 1] == ':' {
        assert forall|p: int|
            0 <= p < s.len() && s[p] == ':' && (forall|j: int| p < j < s.len() ==> s[j] != ':')
                implies after_last_colon(s) == #[trigger] s.skip(p + 1) by {
            assert(p == s.len() - 1);
            assert(s.skip(p + 1) =~= s.skip(s.len() as int));
        }
    } else {
        let d = s.drop_last();
        lemma_after_last_colon(d);
        assert(after_last_colon(s) == after_last_colon(d).push(s[s.len() - 1]));
        if forall|j: int| 0 <= j < s.len() ==> s[j] != ':' {
            assert forall|j: int| 0 <= j < d.len() implies d[j] != ':' by {
                assert(d[j] == s[j]);
            }
            assert(after_last_colon(d) == d);
            assert(d.push(s[s.len() - 1]) =~= s);
        }
        assert forall|p: int|
            0 <= p < s.len() && s[p] == ':' && (forall|j: int| p < j < s.len() ==> s[j] != ':')
                implies after_last_colon(s) == #[trigger] s.skip(p + 1) by {
            assert(p < s.len() - 1);
            assert(d[p] == ':');
            assert forall|j: int| p < j < d.len() implies d[j] != ':' by {
                assert(d[j] == s[j]);
            }
            assert(after_last_colon(d) == d.skip(p + 1));
            assert(d.skip(p + 1).push(s[s.len() - 1]) =~= s.skip(p + 1));
        }
    }
}

/// What follows the last colon of the slice.
#[verifier::loop_isolation(false)]
fn after_last_colon_exec(s: &[char]) -> (r: &[char])
    ensures
        r@ == after_last_colon(s@),
{
    proof {
        lemma_after_last_colon(s@);
    }
    let mut i: usize = s.len();
    while i > 0 && s[i - 1] != ':'
        invariant
            i <= s@.len(),
            forall|j: int| i <= j < s@.len() ==> s@[j] != ':',
        decreases i,
    {
        i -= 1;
    }
    if i == 0 {
        proof {
            assert(after_last_colon(s@) == s@);
        }
        s
    } else {
        proof {
            assert(s@[i - 1] == ':');
            assert(after_last_colon(s@) == s@.skip((i - 1) + 1));
            assert(s@.skip((i - 1) + 1) =~= s@.subrange(i as int, s@.len() as int));
        }
        vstd::slice::slice_subrange(s, i, s.len())
    }
}

/// Where the last equals sign of the input stands, and what follows it.
pub proof fn lemma_after_last_eq(s: Seq<char>)
    ensures
        (forall|j: int| 0 <= j < s.len() ==> s[j] != '=') ==> after_last_eq(s) == s,
        forall|p: int|
            0 <= p < s.len() && s[p] == '=' && (forall|j: int| p < j < s.len() ==> s[j] != '=')
                ==> after_last_eq(s) == #[trigger] s.skip(p + 1),
    decreases s.len(),
{
    if s.len() == 0 {
    } else if s[s.len() - 1] == '=' {
        assert forall|p: int|
            0 <= p < s.len() && s[p] == '=' && (forall|j: int| p < j < s.len() ==> s[j] != '=')
                implies after_last_eq(s) == #[trigger] s.skip(p + 1) by {
            assert(p == s.len() - 1);
            assert(s.skip(p + 1) =~= s.skip(s.len() as int));
        }
    } else {
        let d = s.drop_last();
        lemma_after_last_eq(d);
        assert(after_last_eq(s) == after_last_eq(d).push(s[s.len() - 1]));
        if forall|j: int| 0 <= j < s.len() ==> s[j] != '=' {
            assert forall|j: int| 0 <= j < d.len() implies d[j] != '=' by {
                assert(d[j] == s[j]);
            }
            assert(after_last_eq(d) == d);
            assert(d.push(s[s.len() - 1]) =~= s);
        }
        assert forall|p: int|
            0 <= p < s.len() && s[p] == '=' && (forall|j: int| p < j < s.len() ==> s[j] != '=')
                implies after_last_eq(s) == #[trigger] s.skip(p + 1) by {
            assert(p < s.len() - 1);
            assert(d[p] == '=');
            assert forall|j: int| p < j < d.len() implies d[j] != '=' by {
                assert(d[j] == s[j]);
            }
            assert(after_last_eq(d) == d.skip(p + 1));
            assert(d.skip(p + 1).push(s[s.len() - 1]) =~= s.skip(p + 1));
        }
    }
}

/// What follows the last equals sign of the slice.
#[verifier::loop_isolation(false)]
fn after_last_eq_exec(s: &[char]) -> (r: &[char])
    ensures
        r@ == after_last_eq(s@),
{
    proof {
        lemma_after_last_eq(s@);
    }
    let mut i: usize = s.len();
    while i > 0 && s[i - 1] != '='
        invariant
            i <= s@.len(),
            forall|j: int| i <= j < s@.len() ==> s@[j] != '=',
        decreases i,
    {
        i -= 1;
    }
    if i == 0 {
        proof {
            assert(after_last_eq(s@) == s@);
        }
        s
    } else {
        proof {
            assert(s@[i - 1] == '=');
            assert(after_last_eq(s@) == s@.skip((i - 1) + 1));
            assert(s@.skip((i - 1) + 1) =~= s@.subrange(i as int, s@.len() as int));
        }
        vstd::slice::slice_subrange(s, i, s.len())
    }
}

/// What the first line feed position means.
pub proof fn lemma_nl_first(s: Seq<char>)
    ensures
        0 <= nl_idx(s) <= s.len(),
        nl_idx(s) < s.len() ==> s[nl_idx(s)] == '\n',
        forall|j: int| 0 <= j < nl_idx(s) ==> s[j] != '\n',
    decreases s.len(),
{
    if s.len() > 0 && s[0] != '\n' {
        lemma_nl_first(s.drop_first());
        assert forall|j: int| 0 <= j < nl_idx(s) implies s[j] != '\n' by {
            if j > 0 {
                assert(s.drop_first()[j - 1] != '\n');
            }
        }
    }
}

/// Pushing a line pushes its view.
pub proof fn lemma_push_line_view(a: Vec<String>, b: Vec<String>, x: String)
    requires
        b@ == a@.push(x),
    ensures
        b.deep_view() == a.deep_view().push(x@),
{
    let l = b.deep_view();
    let r = a.deep_view().push(x@);
    assert forall|k: int| 0 <= k < l.len() implies l[k] == r[k] by {
        assert(l[k] == b@[k].deep_view());
        if k < a@.len() {
            assert(b@[k] == a@[k]);
            assert(r[k] == a@[k].deep_view());
        } else {
            assert(b@[k] == x);
        }
    }
    assert(l =~= r);
}

/// The lines of the text.
#[verifier::loop_isolation(false)]
fn split_lines_exec(s: &str) -> (r: Vec<String>)
    ensures
        r.deep_view() == split_lines(s@),
{
    let cs = crate::text::str_to_chars(s);
    let mut out: Vec<String> = Vec::new();
    let mut i: usize = 0;
    proof {
        assert(out.deep_view() =~= Seq::<Seq<char>>::empty());
        assert(cs@.skip(0) =~= cs@);
        assert(out.deep_view() + split_lines(cs@.skip(0)) =~= split_lines(cs@));
    }
    while i < cs.len()
        invariant
            i <= cs@.len(),
            out.deep_view() + split_lines(cs@.skip(i as int)) == split_lines(cs@),
        decreases cs@.len() - i,
    {
        let ghost rem = cs@.skip(i as int);
        let mut j: usize = i;
        while j < cs.len() && cs[j] != '\n'
            invariant
                i <= j <= cs@.len(),
                forall|k: int| i <= k < j ==> cs@[k] != '\n',
            decreases cs@.len() - j,
        {
            j += 1;
        }
        proof {
            lemma_nl_first(rem);
            assert forall|k: int| 0 <= k < j - i implies rem[k] != '\n' by {
                assert(rem[k] == cs@[i + k]);
            }
            if j < cs@.len() {
                assert(rem[j - i] == cs@[j as int]);
            }
            if nl_idx(rem) < j - i {
                assert(rem[nl_idx(rem)] == '\n');
                assert(false);
            }
            if nl_idx(rem) > j - i {
                assert(j < cs@.len());
                assert(rem[j - i] != '\n');
                assert(false);
            }
            assert(nl_idx(rem) == j - i);
        }
        let endpos: usize = if j > i && cs[j - 1] == '\r' {
            j - 1
        } else {
            j
        };
        let line = crate::text::chars_to_string(
            vstd::slice::slice_subrange(cs.as_slice(), i, endpos),
        );
        let ghost old_out = out;
        let ghost prev = out.deep_view();
        out.push(line);
        proof {
            lemma_push_line_view(old_out, out, line);
            let nl = nl_idx(rem);
            if nl >= rem.len() {
                assert(j == cs@.len());
                assert(rem =~= cs@.subrange(i as int, cs@.len() as int));
                if rem.len() > 0 && rem[rem.len() - 1] == '\r' {
                    assert(strip_cr(rem) =~= cs@.subrange(i as int, endpos as int));
                } else {
                    assert(strip_cr(rem) =~= cs@.subrange(i as int, endpos as int));
                }
                assert(split_lines(rem) == seq![strip_cr(rem)]);
                assert(line@ == strip_cr(rem));
                assert(prev + seq![strip_cr(rem)] =~= out.deep_view());
                assert(cs@.skip(cs@.len() as int).len() == 0);
                assert(split_lines(cs@.skip(cs@.len() as int)) =~= Seq::<Seq<char>>::empty());
                assert(out.deep_view() + split_lines(cs@.skip(cs@.len() as int))
                    =~= out.deep_view());
            } else {
                assert(j < cs@.len());
                assert(rem.take(nl) =~= cs@.subrange(i as int, j as int));
                if nl > 0 && rem.take(nl)[nl - 1] == '\r' {
                    assert(strip_cr(rem.take(nl)) =~= cs@.subrange(i as int, endpos as int));
                } else {
                    assert(strip_cr(rem.take(nl)) =~= cs@.subrange(i as int, endpos as int));
                }
                assert(split_lines(rem) == seq![strip_cr(rem.take(nl))] + split_lines(
                    rem.skip(nl + 1),
                ));
                assert(rem.skip(nl + 1) =~= cs@.skip(j + 1));
                assert(line@ == strip_cr(rem.take(nl)));
                assert(prev + (seq![strip_cr(rem.take(nl))] + split_lines(cs@.skip(j + 1)))
                    =~= out.deep_view() + split_lines(cs@.skip(j + 1)));
            }
        }
        if j < cs.len() {
            i = j + 1;
        } else {
            i = j;
            proof {
                assert(cs@.skip(i as int).len() == 0);
            }
        }
    }
    proof {
        assert(cs@.skip(cs@.len() as int).len() == 0);
        assert(split_lines(cs@.skip(cs@.len() as int)) =~= Seq::<Seq<char>>::empty());
        assert(out.deep_view() + split_lines(cs@.skip(cs@.len() as int)) =~= out.deep_view());
    }
    out
}

/// Key positions agree between a cost table and its view.
pub proof fn lemma_sv_idx(s: Seq<(Seq<char>, String)>, k: Seq<char>)
    ensures
        crate::contract::map_key_idx(sv_pairs(s), k) == crate::contract::map_key_idx(s, k),
    decreases s.len(),
{
    crate::contract::lemma_sv_pairs(s);
    if s.len() > 0 {
        lemma_sv_idx(s.drop_first(), k);
        assert(sv_pairs(s) == seq![(s[0].0, s[0].1@)] + sv_pairs(s.drop_first()));
        assert(sv_pairs(s).drop_first() =~= sv_pairs(s.drop_first()));
    }
}

/// An upsert on a cost table is an upsert on its view.
pub proof fn lemma_sv_insert(s: Seq<(Seq<char>, String)>, k: Seq<char>, v: String)
    ensures
        sv_pairs(crate::contract::map_insert(s, k, v)) == crate::contract::map_insert(
            sv_pairs(s),
            k,
            v@,
        ),
{
    crate::contract::lemma_sv_pairs(s);
    lemma_sv_idx(s, k);
    crate::contract::lemma_map_key_idx(s, k);
    let t = crate::contract::map_insert(s, k, v);
    crate::contract::lemma_sv_pairs(t);
    let a = sv_pairs(t);
    let b = crate::contract::map_insert(sv_pairs(s), k, v@);
    assert forall|j: int| 0 <= j < a.len() implies a[j] == b[j] by {
        if crate::contract::map_key_idx(s, k) >= 0 {
            let w = crate::contract::map_key_idx(s, k);
            if j != w {
                assert(t[j] == s[j]);
            } else {
                assert(t[j] == (k, v));
            }
        } else {
            if j < s.len() {
                assert(t[j] == s[j]);
            } else {
                assert(t[j] == (k, v));
            }
        }
    }
    assert(a =~= b);
}

/// The position of the first occurrence of `c` in the slice.
#[verifier::loop_isolation(false)]
fn char_idx_exec(s: &[char], c: char) -> (r: usize)
    ensures
        r == char_idx(s@, c),
{
    proof {
        lemma_char_idx(s@, c);
    }
    let mut i: usize = 0;
    while i < s.len() && s[i] != c
        invariant
            i <= s@.len(),
            forall|j: int| 0 <= j < i ==> s@[j] != c,
        decreases s@.len() - i,
    {
        i += 1;
    }
    proof {
        if char_idx(s@, c) < i {
            assert(s@[char_idx(s@, c)] == c);
        }
        if char_idx(s@, c) > i {
            assert(i < s@.len());
        }
    }
    i
}

/// One `name(signature): cost` row.
fn parse_cost_row_exec(line: &String) -> (r: Option<(String, String)>)
    ensures
        match r {
            Some((k, v)) => parse_cost_row(line@) == Some((k@, v@)),
            None => parse_cost_row(line@) is None,
        },
{
    let cs = crate::text::str_to_chars(line.as_str());
    let t = trim_exec(cs.as_slice());
    let ci = char_idx_exec(t, ':');
    proof {
        lemma_char_idx(t@, ':');
    }
    if ci >= t.len() {
        return None;
    }
    let head = vstd::slice::slice_subrange(t, 0, ci);
    proof {
        assert(head@ =~= t@.take(char_idx(t@, ':')));
    }
    let pi = char_idx_exec(head, '(');
    proof {
        lemma_char_idx(head@, '(');
    }
    let key = crate::text::chars_to_string(vstd::slice::slice_subrange(head, 0, pi));
    proof {
        assert(head@.subrange(0, pi as int) =~= head@.take(char_idx(head@, '(')));
    }
    let rest = vstd::slice::slice_subrange(t, ci + 1, t.len());
    proof {
        assert(rest@ =~= t@.skip(char_idx(t@, ':') + 1));
    }
    let ri = char_idx_exec(rest, ':');
    proof {
        lemma_char_idx(rest@, ':');
        assert(rest@.subrange(0, ri as int) =~= rest@.take(char_idx(rest@, ':')));
    }
    let value = crate::text::chars_to_string(
        trim_exec(vstd::slice::slice_subrange(rest, 0, ri)),
    );
    Some((key, value))
}

/// The line at a position, when the text has one.
fn line_at<'a>(lines: &'a Vec<String>, i: usize) -> (r: &'a String)
    requires
        i < lines@.len(),
    ensures
        r@ == lines.deep_view()[i as int],
{
    proof {
        assert(lines.deep_view()[i as int] == lines@[i as int].deep_view());
    }
    &lines[i]
}

/// Checks one expected label line, returning the mismatch if any.
fn expect_label_exec(lines: &Vec<String>, i: usize, label: &str) -> (r: Option<FormatError>)
    ensures
        match r {
            Some(e) => expect_label(lines.deep_view(), i as int, label@) == Some(e@),
            None => expect_label(lines.deep_view(), i as int, label@) is None && i
                < lines.deep_view().len(),
        },
{
    proof {
        assert(lines.deep_view().len() == lines@.len());
    }
    if i >= lines.len() {
        return Some(FormatError { expected: String::from_str(label), found: String::new() });
    }
    let line = line_at(lines, i);
    let cs = crate::text::str_to_chars(line.as_str());
    let t = trim_exec(cs.as_slice());
    if slice_is(t, label) {
        None
    } else {
        Some(FormatError { expected: String::from_str(label), found: line.clone() })
    }
}

/// Scans the gas block of one section.
#[verifier::loop_isolation(false)]
fn scan_gas_exec(lines: &Vec<String>, i: usize) -> (r: Result<(GasEstimates, usize), FormatError>)
    ensures
        match r {
            Ok((g, j)) => scan_gas(lines.deep_view(), i as int) == Ok::<
                (GasV, int),
                FormatErrorV,
            >((g@, j as int)) && j <= lines@.len() && j >= i + 4,
            Err(e) => scan_gas(lines.deep_view(), i as int) == Err::<
                (GasV, int),
                FormatErrorV,
            >(e@),
        },
{
    let ghost dv = lines.deep_view();
    let n: usize = lines.len();
    proof {
        lemma_label_lits();
        assert(dv.len() == lines@.len());
        assert(lines@.len() == n);
    }
    match expect_label_exec(lines, i, "Gas estimation:") {
        Some(e) => {
            return Err(e);
        },
        None => {},
    }
    match expect_label_exec(lines, i + 1, "construction:") {
        Some(e) => {
            return Err(e);
        },
        None => {},
    }
    if i + 2 >= lines.len() {
        return Err(
            FormatError {
                expected: String::from_str("<amount> = <total>"),
                found: String::new(),
            },
        );
    }
    let cline = line_at(lines, i + 2);
    let ccs = crate::text::str_to_chars(cline.as_str());
    let construction = crate::text::chars_to_string(
        trim_exec(after_last_eq_exec(ccs.as_slice())),
    );
    match expect_label_exec(lines, i + 3, "external:") {
        Some(e) => {
            return Err(e);
        },
        None => {},
    }
    let mut external: StringMap<String> = StringMap::new();
    let mut internal: StringMap<String> = StringMap::new();
    let mut in_internal = false;
    let mut j: usize = i + 4;
    proof {
        assert(sv_pairs(external@) =~= Seq::<(Seq<char>, Seq<char>)>::empty());
        assert(sv_pairs(internal@) =~= Seq::<(Seq<char>, Seq<char>)>::empty());
    }
    loop
        invariant
            i + 4 <= j,
            j <= dv.len(),
            dv.len() == lines@.len(),
            scan_gas_rows(dv, i + 4, Seq::empty(), Seq::empty(), false) == scan_gas_rows(
                dv,
                j as int,
                sv_pairs(external@),
                sv_pairs(internal@),
                in_internal,
            ),
        decreases dv.len() - j,
    {
        if j >= lines.len() {
            break ;
        }
        let line = line_at(lines, j);
        let cs = crate::text::str_to_chars(line.as_str());
        let t = trim_exec(cs.as_slice());
        if slice_is(t, "Binary:") {
            break ;
        }
        if slice_is(t, "internal:") {
            in_internal = true;
            j += 1;
            continue ;
        }
        match parse_cost_row_exec(line) {
            None => {
                return Err(
                    FormatError {
                        expected: String::from_str("<name>(): <cost>"),
                        found: line.clone(),
                    },
                );
            },
            Some((key, value)) => {
                let ghost gkey = key;
                let ghost gval = value;
                if in_internal {
                    let ghost prev = internal@;
                    internal.insert(key, value);
                    proof {
                        lemma_sv_insert(prev, gkey@, gval);
                    }
                } else {
                    let ghost prev = external@;
                    external.insert(key, value);
                    proof {
                        lemma_sv_insert(prev, gkey@, gval);
                    }
                }
                j += 1;
            },
        }
    }
    let g = GasEstimates { construction, external, internal };
    Ok((g, j))
}

/// The views of parsed sections, in order.
pub open spec fn solc_views(s: Seq<SolcContract>) -> Seq<SolcContractV>
    decreases s,
{
    if s.len() == 0 {
        Seq::empty()
    } else {
        seq![s[0]@] + solc_views(s.drop_first())
    }
}

pub proof fn lemma_solc_views_push(a: Seq<SolcContract>, x: SolcContract)
    ensures
        solc_views(a.push(x)) == solc_views(a) + seq![x@],
    decreases a.len(),
{
    if a.len() == 0 {
        assert(a.push(x)[0] == x);
        assert(a.push(x).drop_first() =~= Seq::<SolcContract>::empty());
        assert(solc_views(a.push(x)) == seq![x@] + solc_views(Seq::<SolcContract>::empty()));
        assert(seq![x@] + Seq::<SolcContractV>::empty() =~= solc_views(a) + seq![x@]);
    } else {
        assert(a.push(x)[0] == a[0]);
        assert(a.push(x).drop_first() =~= a.drop_first().push(x));
        lemma_solc_views_push(a.drop_first(), x);
        assert(solc_views(a.push(x)) == seq![a[0]@] + solc_views(a.drop_first().push(x)));
        assert(seq![a[0]@] + (solc_views(a.drop_first()) + seq![x@]) =~= (seq![a[0]@]
            + solc_views(a.drop_first())) + seq![x@]);
    }
}

/// Parses the header line of a section.
fn parse_header_exec(line: &String) -> (r: Option<String>)
    ensures
        match r {
            Some(name) => parse_header(line@) == Some(name@) && name@.len() > 0,
            None => parse_header(line@) is None,
        },
{
    let cs = crate::text::str_to_chars(line.as_str());
    let t = trim_exec(cs.as_slice());
    if t.len() < 15 {
        return None;
    }
    let head = vstd::slice::slice_subrange(t, 0, 7);
    let tail = vstd::slice::slice_subrange(t, t.len() - 7, t.len());
    proof {
        reveal_strlit("=======");
        assert("======="@ =~= header_marks());
        assert(head@ =~= trim(line@).take(7));
        assert(tail@ =~= trim(line@).skip(trim(line@).len() - 7));
    }
    if !slice_is(head, "=======") {
        return None;
    }
    if !slice_is(tail, "=======") {
        return None;
    }
    let name = after_last_colon_exec(skip_marks_end_exec(skip_marks_exec(cs.as_slice())));
    if name.len() == 0 {
        return None;
    }
    Some(crate::text::chars_to_string(name))
}

/// Parses the compiler's whole captured output into one section per
/// contract, in the order the sections appear. Every section must parse:
/// a single bad line fails the whole call.
#[verifier::rlimit(100)]
#[verifier::spinoff_prover]
#[verifier::loop_isolation(false)]
pub fn parse_output(output: &str) -> (r: Result<Vec<SolcContract>, ParseError>)
    ensures
        match r {
            Ok(cs) => parse_output_spec(output@) == Ok::<Seq<SolcContractV>, ParseErrorV>(
                solc_views(cs@),
            ),
            Err(e) => parse_output_spec(output@) == Err::<Seq<SolcContractV>, ParseErrorV>(e@),
        },
{
    let lines = split_lines_exec(output);
    let ghost dv = lines.deep_view();
    proof {
        lemma_label_lits();
        assert(dv.len() == lines@.len());
    }
    let mut out: Vec<SolcContract> = Vec::new();
    let mut i: usize = 0;
    proof {
        assert(solc_views(out@) =~= Seq::<SolcContractV>::empty());
        assert(solc_views(out@) + scan_sections(dv, 0, true, true, true)->Ok_0 =~= scan_sections(
            dv,
            0,
            true,
            true,
            true,
        )->Ok_0);
    }
    loop
        invariant
            dv.len() == lines@.len(),
            i <= dv.len() + 4,
            match scan_sections(dv, i as int, true, true, true) {
                Ok(cs) => scan_sections(dv, 0, true, true, true) == Ok::<
                    Seq<SolcContractV>,
                    ParseErrorV,
                >(solc_views(out@) + cs),
                Err(e) => scan_sections(dv, 0, true, true, true) == Err::<
                    Seq<SolcContractV>,
                    ParseErrorV,
                >(e),
            },
        decreases dv.len() - i,
    {
        if i >= lines.len() {
            proof {
                assert(scan_sections(dv, i as int, true, true, true) == Ok::<
                    Seq<SolcContractV>,
                    ParseErrorV,
                >(Seq::empty()));
                assert(solc_views(out@) + Seq::<SolcContractV>::empty() =~= solc_views(out@));
            }
            return Ok(out);
        }
        if i + 1 >= lines.len() {
            return Err(
                ParseError::Format(
                    FormatError {
                        expected: String::from_str("======= <path>:<name> ======="),
                        found: String::new(),
                    },
                ),
            );
        }
        // one blank separator line consumed; the header follows
        let name = match parse_header_exec(line_at(&lines, i + 1)) {
            Some(n) => n,
            None => {
                return Err(
                    ParseError::Format(
                        FormatError {
                            expected: String::from_str("======= <path>:<name> ======="),
                            found: line_at(&lines, i + 1).clone(),
                        },
                    ),
                );
            },
        };
        let (gas, j) = match scan_gas_exec(&lines, i + 2) {
            Ok(p) => p,
            Err(e) => {
                return Err(ParseError::Format(e));
            },
        };
        match expect_label_exec(&lines, j, "Binary:") {
            Some(e) => {
                return Err(ParseError::Format(e));
            },
            None => {},
        }
        if j + 1 >= lines.len() {
            return Err(
                ParseError::Format(
                    FormatError { expected: String::from_str("<bytecode>"), found: String::new() },
                ),
            );
        }
        let bin = line_at(&lines, j + 1).clone();
        match expect_label_exec(&lines, j + 2, "Contract JSON ABI") {
            Some(e) => {
                return Err(ParseError::Format(e));
            },
            None => {},
        }
        if j + 3 >= lines.len() {
            return Err(
                ParseError::Format(
                    FormatError { expected: String::from_str("<abi>"), found: String::new() },
                ),
            );
        }
        let abi_line = line_at(&lines, j + 3);
        let entries = match Abi::from_json_array(abi_line.as_str()) {
            Ok(es) => es,
            Err(e) => {
                return Err(ParseError::Schema(e));
            },
        };
        let section = SolcContract { name, abi: entries, bin, gas_estimates: Some(gas) };
        let ghost prev = out@;
        let ghost gsec = section;
        out.push(section);
        proof {
            lemma_solc_views_push(prev, gsec);
            assert(parse_header(dv[i as int + 1]) == Some(gsec@.name));
            assert(scan_gas(dv, i as int + 2) == Ok::<(GasV, int), FormatErrorV>(
                (gsec@.gas_estimates->Some_0, j as int),
            ));
            assert(expect_label(dv, j as int, binary_label()) is None);
            assert(dv[j as int + 1] == gsec@.bin);
            assert(expect_label(dv, j + 2int, abi_label()) is None);
            assert(crate::abi::abi_from_text(dv[j + 3int]) == Ok::<Seq<AbiV>, SchemaErrorV>(
                gsec@.abi,
            ));
            let step = scan_section(dv, i as int + 1, true, true, true);
            assert(step == Ok::<(SolcContractV, int), ParseErrorV>((gsec@, j + 4int)));
            if scan_sections(dv, j + 4int, true, true, true) is Ok {
                let cs2 = scan_sections(dv, j + 4int, true, true, true)->Ok_0;
                assert(scan_sections(dv, i as int, true, true, true) == Ok::<
                    Seq<SolcContractV>,
                    ParseErrorV,
                >(seq![gsec@] + cs2));
                assert(solc_views(prev) + (seq![gsec@] + cs2) =~= solc_views(out@) + cs2);
            }
        }
        i = j + 4;
    }
}


/// A header line that does not match the expected shape fails the whole
/// parse with a format error naming the header expectation; no section is
/// produced and no payload is ever decoded.
pub proof fn lemma_bad_header_fails(s: Seq<char>)
    requires
        split_lines(s).len() >= 2,
        parse_header(split_lines(s)[1]) is None,
    ensures
        parse_output_spec(s) == Err::<Seq<SolcContractV>, ParseErrorV>(
            ParseErrorV::Format(
                FormatErrorV { expected: header_shape(), found: split_lines(s)[1] },
            ),
        ),
{
}

/// A gas block whose lines never carry the internal label leaves the
/// internal table exactly as it began: for one section's scan, empty
/// rather than absent.
pub proof fn lemma_internal_stays_empty(
    lines: Seq<Seq<char>>,
    i: int,
    ext: Seq<(Seq<char>, Seq<char>)>,
    int_rows: Seq<(Seq<char>, Seq<char>)>,
)
    requires
        forall|j: int| 0 <= j < lines.len() ==> trim(#[trigger] lines[j]) != internal_label(),
        scan_gas_rows(lines, i, ext, int_rows, false) is Ok,
    ensures
        scan_gas_rows(lines, i, ext, int_rows, false)->Ok_0.1 == int_rows,
    decreases lines.len() - i,
{
    if i < 0 || i >= lines.len() {
    } else if trim(lines[i]) == binary_label() {
    } else {
        match parse_cost_row(lines[i]) {
            None => {},
            Some((key, value)) => {
                lemma_internal_stays_empty(lines, i + 1, map_insert(ext, key, value), int_rows);
            },
        }
    }
}

} // verus!

