//! A small JSON value model with a verified printer and parser.
//!
//! Every wire format of this library (the ABI JSON array and the contract
//! document) is built on this module. Strings escape `"`, `\`, and the
//! common control characters; numbers are kept as raw tokens and are never
//! produced by this library's own encoders.

use crate::text::chars_to_string;
use crate::text::push_char;
use crate::text::str_to_chars;
use vstd::slice::slice_subrange;
use vstd::prelude::*;

verus! {

/// Mathematical model of a JSON value, used by every specification.
pub enum JsonV {
    Null,
    Bool(bool),
    /// A raw, unparsed number token.
    Num(Seq<char>),
    Str(Seq<char>),
    Arr(Seq<JsonV>),
    /// Object members in order of appearance.
    Obj(Seq<(Seq<char>, JsonV)>),
}

/// Executable JSON value.
pub enum Json {
    Null,
    Bool(bool),
    /// A raw, unparsed number token.
    Num(String),
    Str(String),
    Arr(Vec<Json>),
    /// Object members in order of appearance.
    Obj(Vec<(String, Json)>),
}

/// The deep view of one object member.
pub open spec fn member_view(p: (String, Json)) -> (Seq<char>, JsonV)
    decreases p,
{
    (p.0@, p.1.deep_view())
}

impl DeepView for Json {
    type V = JsonV;

    open spec fn deep_view(&self) -> JsonV
        decreases self,
    {
        match self {
            Json::Null => JsonV::Null,
            Json::Bool(b) => JsonV::Bool(*b),
            Json::Num(s) => JsonV::Num(s@),
            Json::Str(s) => JsonV::Str(s@),
            Json::Arr(items) => JsonV::Arr(
                Seq::new(
                    items@.len(),
                    |i: int|
                        if 0 <= i < items@.len() {
                            items@[i].deep_view()
                        } else {
                            JsonV::Null
                        },
                ),
            ),
            Json::Obj(members) => JsonV::Obj(
                Seq::new(
                    members@.len(),
                    |i: int|
                        if 0 <= i < members@.len() {
                            member_view(members@[i])
                        } else {
                            (Seq::empty(), JsonV::Null)
                        },
                ),
            ),
        }
    }
}

/// Characters the parser treats as insignificant between tokens.
pub open spec fn is_ws(c: char) -> bool {
    c == ' ' || c == '\n' || c == '\t' || c == '\r'
}

/// `n` space characters.
pub open spec fn spaces(n: nat) -> Seq<char>
    decreases n,
{
    if n == 0 {
        Seq::empty()
    } else {
        spaces((n - 1) as nat).push(' ')
    }
}

/// Indentation depth is capped so that a printed column never overflows.
pub open spec fn capped(ind: nat) -> nat {
    if ind > 100 {
        100nat
    } else {
        ind
    }
}

/// The depth below the current one. It saturates past the indentation
/// cap, so a printing pass can carry it in a machine integer.
pub open spec fn bump(ind: nat) -> nat {
    if ind < 101 {
        ind + 1
    } else {
        ind
    }
}

/// Line break plus indentation, emitted only by the readable layout.
pub open spec fn break_indent(pretty: bool, ind: nat) -> Seq<char> {
    if pretty {
        seq!['\n'] + spaces(2 * capped(ind))
    } else {
        Seq::empty()
    }
}

/// How one character appears inside a printed JSON string literal.
pub open spec fn esc_char(c: char) -> Seq<char> {
    if c == '"' {
        seq!['\\', '"']
    } else if c == '\\' {
        seq!['\\', '\\']
    } else if c == '\n' {
        seq!['\\', 'n']
    } else if c == '\r' {
        seq!['\\', 'r']
    } else if c == '\t' {
        seq!['\\', 't']
    } else {
        seq![c]
    }
}

/// The body of a printed JSON string literal.
pub open spec fn esc_str(s: Seq<char>) -> Seq<char>
    decreases s.len(),
{
    if s.len() == 0 {
        Seq::empty()
    } else {
        esc_char(s[0]) + esc_str(s.drop_first())
    }
}

/// A printed JSON string literal, quotes included.
pub open spec fn print_str(s: Seq<char>) -> Seq<char> {
    seq!['"'] + esc_str(s) + seq!['"']
}

/// The text of a JSON value. `pretty` selects the readable layout
/// (line breaks and two-space indentation); `ind` is the current depth.
pub open spec fn print_jv(j: JsonV, pretty: bool, ind: nat) -> Seq<char>
    decreases j, 1int,
{
    match j {
        JsonV::Null => seq!['n', 'u', 'l', 'l'],
        JsonV::Bool(b) => if b {
            seq!['t', 'r', 'u', 'e']
        } else {
            seq!['f', 'a', 'l', 's', 'e']
        },
        JsonV::Num(tok) => tok,
        JsonV::Str(s) => print_str(s),
        JsonV::Arr(items) => if items.len() == 0 {
            seq!['[', ']']
        } else {
            seq!['['] + print_items(items, pretty, bump(ind), 0) + break_indent(pretty, ind)
                + seq![']']
        },
        JsonV::Obj(members) => if members.len() == 0 {
            seq!['{', '}']
        } else {
            seq!['{'] + print_members(members, pretty, bump(ind), 0) + break_indent(pretty, ind)
                + seq!['}']
        },
    }
}

/// The text of the array elements from index `i` on, each preceded by a
/// break and followed by a comma when another element follows.
pub open spec fn print_items(items: Seq<JsonV>, pretty: bool, ind: nat, i: int) -> Seq<char>
    decreases items, items.len() - i, 0int,
{
    if i < 0 || i >= items.len() {
        Seq::empty()
    } else {
        break_indent(pretty, ind) + print_jv(items[i], pretty, ind) + (if i + 1 < items.len() {
            seq![',']
        } else {
            Seq::empty()
        }) + print_items(items, pretty, ind, i + 1)
    }
}

/// The text of the object members from index `i` on.
pub open spec fn print_members(
    members: Seq<(Seq<char>, JsonV)>,
    pretty: bool,
    ind: nat,
    i: int,
) -> Seq<char>
    decreases members, members.len() - i, 0int,
{
    if i < 0 || i >= members.len() {
        Seq::empty()
    } else {
        break_indent(pretty, ind) + print_str(members[i].0) + seq![':'] + (if pretty {
            seq![' ']
        } else {
            Seq::empty()
        }) + print_jv(members[i].1, pretty, ind) + (if i + 1 < members.len() {
            seq![',']
        } else {
            Seq::empty()
        }) + print_members(members, pretty, ind, i + 1)
    }
}

/// The input without its leading whitespace.
pub open spec fn skip_ws(s: Seq<char>) -> Seq<char>
    decreases s.len(),
{
    if s.len() > 0 && is_ws(s[0]) {
        skip_ws(s.drop_first())
    } else {
        s
    }
}

pub proof fn lemma_skip_ws_len(s: Seq<char>)
    ensures
        skip_ws(s).len() <= s.len(),
    decreases s.len(),
{
    if s.len() > 0 && is_ws(s[0]) {
        lemma_skip_ws_len(s.drop_first());
    }
}

/// Skipping whitespace never grows the input; every termination argument
/// below leans on this.
pub proof fn lemma_skip_ws_len_all()
    ensures
        forall|s: Seq<char>| #[trigger] skip_ws(s).len() <= s.len(),
{
    assert forall|s: Seq<char>| #[trigger] skip_ws(s).len() <= s.len() by {
        lemma_skip_ws_len(s);
    }
}

pub open spec fn is_digit(c: char) -> bool {
    '0' <= c && c <= '9'
}

/// Characters that may continue a raw number token.
pub open spec fn is_num_char(c: char) -> bool {
    is_digit(c) || c == '-' || c == '+' || c == '.' || c == 'e' || c == 'E'
}

/// Length of the raw number token at the start of the input.
pub open spec fn num_len(s: Seq<char>) -> int
    decreases s.len(),
{
    if s.len() > 0 && is_num_char(s[0]) {
        1 + num_len(s.drop_first())
    } else {
        0
    }
}

pub proof fn lemma_num_len(s: Seq<char>)
    ensures
        0 <= num_len(s) <= s.len(),
    decreases s.len(),
{
    if s.len() > 0 && is_num_char(s[0]) {
        lemma_num_len(s.drop_first());
    }
}

/// The character an escape letter stands for.
pub open spec fn unescaped(e: char) -> char {
    if e == 'n' {
        '\n'
    } else if e == 'r' {
        '\r'
    } else if e == 't' {
        '\t'
    } else if e == 'b' {
        '\u{0008}'
    } else if e == 'f' {
        '\u{000c}'
    } else {
        e
    }
}

/// Escape letters the parser accepts after a backslash.
pub open spec fn is_escape_letter(e: char) -> bool {
    e == '"' || e == '\\' || e == '/' || e == 'n' || e == 'r' || e == 't' || e == 'b' || e == 'f'
}

/// Parses a string body after its opening quote: the decoded characters
/// and the input after the closing quote.
pub open spec fn parse_str_body(s: Seq<char>) -> Option<(Seq<char>, Seq<char>)>
    decreases s.len(),
{
    if s.len() == 0 {
        None
    } else if s[0] == '"' {
        Some((Seq::empty(), s.drop_first()))
    } else if s[0] == '\\' {
        if s.len() >= 2 && is_escape_letter(s[1]) {
            match parse_str_body(s.skip(2)) {
                Some((cs, r)) => Some((seq![unescaped(s[1])] + cs, r)),
                None => None,
            }
        } else {
            None
        }
    } else {
        match parse_str_body(s.drop_first()) {
            Some((cs, r)) => Some((seq![s[0]] + cs, r)),
            None => None,
        }
    }
}

/// Caps a sub-parser's leftover at less than the whole input, so that the
/// mutual recursion below visibly terminates. Once each parser is shown to
/// consume at least one character this is the identity on real leftovers.
pub open spec fn bounded(s: Seq<char>, r: Seq<char>) -> Seq<char> {
    if r.len() < s.len() {
        r
    } else {
        Seq::empty()
    }
}

/// Parses one JSON value at the head of the input, returning it and the
/// leftover input.
pub open spec fn parse_val(s: Seq<char>) -> Option<(JsonV, Seq<char>)>
    decreases s.len(), 0int,
    via parse_val_dec
{
    let t = skip_ws(s);
    if t.len() == 0 {
        None
    } else {
        let c = t[0];
        if c == 'n' {
            if t.len() >= 4 && t[1] == 'u' && t[2] == 'l' && t[3] == 'l' {
                Some((JsonV::Null, t.skip(4)))
            } else {
                None
            }
        } else if c == 't' {
            if t.len() >= 4 && t[1] == 'r' && t[2] == 'u' && t[3] == 'e' {
                Some((JsonV::Bool(true), t.skip(4)))
            } else {
                None
            }
        } else if c == 'f' {
            if t.len() >= 5 && t[1] == 'a' && t[2] == 'l' && t[3] == 's' && t[4] == 'e' {
                Some((JsonV::Bool(false), t.skip(5)))
            } else {
                None
            }
        } else if c == '"' {
            match parse_str_body(t.drop_first()) {
                Some((cs, r)) => Some((JsonV::Str(cs), r)),
                None => None,
            }
        } else if c == '[' {
            match parse_arr(t.drop_first()) {
                Some((vs, r)) => Some((JsonV::Arr(vs), r)),
                None => None,
            }
        } else if c == '{' {
            match parse_obj(t.drop_first()) {
                Some((ms, r)) => Some((JsonV::Obj(ms), r)),
                None => None,
            }
        } else if c == '-' || is_digit(c) {
            Some((JsonV::Num(t.take(num_len(t))), t.skip(num_len(t))))
        } else {
            None
        }
    }
}

#[via_fn]
proof fn parse_val_dec(s: Seq<char>) {
    lemma_skip_ws_len_all();
}

/// Parses the elements of an array after its opening bracket.
pub open spec fn parse_arr(s: Seq<char>) -> Option<(Seq<JsonV>, Seq<char>)>
    decreases s.len(), 2int,
    via parse_arr_dec
{
    let t = skip_ws(s);
    if t.len() == 0 {
        None
    } else if t[0] == ']' {
        Some((Seq::empty(), t.drop_first()))
    } else {
        parse_items(s)
    }
}

#[via_fn]
proof fn parse_arr_dec(s: Seq<char>) {
    lemma_skip_ws_len_all();
}

/// Parses one or more comma-separated array elements and the closing
/// bracket.
pub open spec fn parse_items(s: Seq<char>) -> Option<(Seq<JsonV>, Seq<char>)>
    decreases s.len(), 1int,
    via parse_items_dec
{
    match parse_val(s) {
        None => None,
        Some((v, r0)) => {
            let u = skip_ws(bounded(s, r0));
            if u.len() == 0 {
                None
            } else if u[0] == ',' {
                match parse_items(u.drop_first()) {
                    Some((vs, rr)) => Some((seq![v] + vs, rr)),
                    None => None,
                }
            } else if u[0] == ']' {
                Some((seq![v], u.drop_first()))
            } else {
                None
            }
        },
    }
}

#[via_fn]
proof fn parse_items_dec(s: Seq<char>) {
    lemma_skip_ws_len_all();
}

/// Parses the members of an object after its opening brace.
pub open spec fn parse_obj(s: Seq<char>) -> Option<(Seq<(Seq<char>, JsonV)>, Seq<char>)>
    decreases s.len(), 2int,
    via parse_obj_dec
{
    let t = skip_ws(s);
    if t.len() == 0 {
        None
    } else if t[0] == '}' {
        Some((Seq::empty(), t.drop_first()))
    } else {
        parse_members(s)
    }
}

#[via_fn]
proof fn parse_obj_dec(s: Seq<char>) {
    lemma_skip_ws_len_all();
}

/// Parses one or more `"key": value` members and the closing brace.
pub open spec fn parse_members(s: Seq<char>) -> Option<
    (Seq<(Seq<char>, JsonV)>, Seq<char>),
>
    decreases s.len(), 1int,
    via parse_members_dec
{
    let t = skip_ws(s);
    if t.len() == 0 || t[0] != '"' {
        None
    } else {
        match parse_str_body(t.drop_first()) {
            None => None,
            Some((key, r0)) => {
                let u = skip_ws(bounded(s, r0));
                if u.len() == 0 || u[0] != ':' {
                    None
                } else {
                    match parse_val(u.drop_first()) {
                        None => None,
                        Some((v, r1)) => {
                            let w = skip_ws(bounded(s, r1));
                            if w.len() == 0 {
                                None
                            } else if w[0] == ',' {
                                match parse_members(w.drop_first()) {
                                    Some((ms, rr)) => Some((seq![(key, v)] + ms, rr)),
                                    None => None,
                                }
                            } else if w[0] == '}' {
                                Some((seq![(key, v)], w.drop_first()))
                            } else {
                                None
                            }
                        },
                    }
                }
            },
        }
    }
}

#[via_fn]
proof fn parse_members_dec(s: Seq<char>) {
    lemma_skip_ws_len_all();
}

/// Parses a whole document: one value with nothing but whitespace after it.
pub open spec fn parse_text(s: Seq<char>) -> Option<JsonV> {
    match parse_val(s) {
        None => None,
        Some((j, rest)) => if skip_ws(rest).len() == 0 {
            Some(j)
        } else {
            None
        },
    }
}

/// A successful string-body parse consumes at least the closing quote.
pub proof fn lemma_str_body_advances(s: Seq<char>)
    ensures
        parse_str_body(s) is Some ==> parse_str_body(s)->Some_0.1.len() < s.len(),
    decreases s.len(),
{
    if s.len() == 0 {
    } else if s[0] == '"' {
    } else if s[0] == '\\' {
        if s.len() >= 2 && is_escape_letter(s[1]) {
            lemma_str_body_advances(s.skip(2));
        }
    } else {
        lemma_str_body_advances(s.drop_first());
    }
}

/// A successful value parse consumes at least one character.
pub proof fn lemma_val_advances(s: Seq<char>)
    ensures
        parse_val(s) is Some ==> parse_val(s)->Some_0.1.len() < s.len(),
    decreases s.len(), 0int,
{
    lemma_skip_ws_len(s);
    let t = skip_ws(s);
    if t.len() == 0 {
    } else if t[0] == '"' {
        lemma_str_body_advances(t.drop_first());
    } else if t[0] == '[' {
        lemma_arr_advances(t.drop_first());
    } else if t[0] == '{' {
        lemma_obj_advances(t.drop_first());
    } else if t[0] == '-' || is_digit(t[0]) {
        lemma_num_len(t);
        lemma_num_len(t.drop_first());
        assert(num_len(t) == 1 + num_len(t.drop_first()));
    }
}

/// A successful array-tail parse consumes at least one character.
pub proof fn lemma_arr_advances(s: Seq<char>)
    ensures
        parse_arr(s) is Some ==> parse_arr(s)->Some_0.1.len() < s.len(),
    decreases s.len(), 2int,
{
    lemma_skip_ws_len(s);
    let t = skip_ws(s);
    if t.len() == 0 {
    } else if t[0] == ']' {
    } else {
        lemma_items_advances(s);
    }
}

/// A successful element-list parse consumes at least one character.
pub proof fn lemma_items_advances(s: Seq<char>)
    ensures
        parse_items(s) is Some ==> parse_items(s)->Some_0.1.len() < s.len(),
    decreases s.len(), 1int,
{
    lemma_val_advances(s);
    match parse_val(s) {
        None => {},
        Some((v, r0)) => {
            let u = skip_ws(bounded(s, r0));
            lemma_skip_ws_len(bounded(s, r0));
            if u.len() == 0 {
            } else if u[0] == ',' {
                lemma_items_advances(u.drop_first());
            }
        },
    }
}

/// A successful member-list parse consumes at least one character.
pub proof fn lemma_obj_advances(s: Seq<char>)
    ensures
        parse_obj(s) is Some ==> parse_obj(s)->Some_0.1.len() < s.len(),
    decreases s.len(), 2int,
{
    lemma_skip_ws_len(s);
    let t = skip_ws(s);
    if t.len() == 0 {
    } else if t[0] == '}' {
    } else {
        lemma_members_advances(s);
    }
}

/// A successful member parse consumes at least one character.
pub proof fn lemma_members_advances(s: Seq<char>)
    ensures
        parse_members(s) is Some ==> parse_members(s)->Some_0.1.len() < s.len(),
    decreases s.len(), 1int,
{
    lemma_skip_ws_len(s);
    let t = skip_ws(s);
    if t.len() == 0 || t[0] != '"' {
    } else {
        lemma_str_body_advances(t.drop_first());
        match parse_str_body(t.drop_first()) {
            None => {},
            Some((key, r0)) => {
                let u = skip_ws(bounded(s, r0));
                lemma_skip_ws_len(bounded(s, r0));
                if u.len() == 0 || u[0] != ':' {
                } else {
                    lemma_val_advances(u.drop_first());
                    match parse_val(u.drop_first()) {
                        None => {},
                        Some((v, r1)) => {
                            let w = skip_ws(bounded(s, r1));
                            lemma_skip_ws_len(bounded(s, r1));
                            if w.len() == 0 {
                            } else if w[0] == ',' {
                                lemma_members_advances(w.drop_first());
                            }
                        },
                    }
                }
            },
        }
    }
}

/// Every character of the input is whitespace.
pub open spec fn all_ws(s: Seq<char>) -> bool {
    forall|i: int| 0 <= i < s.len() ==> is_ws(#[trigger] s[i])
}

/// Leading whitespace is skipped, whatever follows.
pub proof fn lemma_skip_ws_concat(a: Seq<char>, b: Seq<char>)
    requires
        all_ws(a),
    ensures
        skip_ws(a + b) == skip_ws(b),
    decreases a.len(),
{
    if a.len() == 0 {
        assert(a + b =~= b);
    } else {
        assert((a + b).drop_first() =~= a.drop_first() + b);
        lemma_skip_ws_concat(a.drop_first(), b);
    }
}

pub proof fn lemma_spaces_all_ws(n: nat)
    ensures
        all_ws(spaces(n)),
        spaces(n).len() == n,
    decreases n,
{
    if n > 0 {
        lemma_spaces_all_ws((n - 1) as nat);
    }
}

pub proof fn lemma_break_indent_all_ws(pretty: bool, ind: nat)
    ensures
        all_ws(break_indent(pretty, ind)),
{
    lemma_spaces_all_ws(2 * capped(ind));
}

/// The parse of a value depends only on the input after its leading
/// whitespace.
pub proof fn lemma_parse_val_ws(s1: Seq<char>, s2: Seq<char>)
    requires
        skip_ws(s1) == skip_ws(s2),
    ensures
        parse_val(s1) == parse_val(s2),
{
    lemma_skip_ws_same(s1);
    lemma_skip_ws_same(s2);
}

/// Skipping whitespace is idempotent.
pub proof fn lemma_skip_ws_same(s: Seq<char>)
    ensures
        skip_ws(skip_ws(s)) == skip_ws(s),
        parse_val(s) == parse_val(skip_ws(s)),
    decreases s.len(),
{
    if s.len() > 0 && is_ws(s[0]) {
        lemma_skip_ws_same(s.drop_first());
    }
}

/// Values this library's encoders produce: everything but raw number
/// tokens, whose printed form is not self-delimiting.
pub open spec fn wf_jv(j: JsonV) -> bool
    decreases j,
{
    match j {
        JsonV::Null => true,
        JsonV::Bool(_) => true,
        JsonV::Num(_) => false,
        JsonV::Str(_) => true,
        JsonV::Arr(items) => forall|i: int| 0 <= i < items.len() ==> wf_jv(#[trigger] items[i]),
        JsonV::Obj(members) => forall|i: int|
            0 <= i < members.len() ==> wf_jv(#[trigger] members[i].1),
    }
}

/// Characters that can open the printed form of a well-formed value.
pub open spec fn is_value_start(c: char) -> bool {
    c == 'n' || c == 't' || c == 'f' || c == '"' || c == '[' || c == '{'
}

/// A well-formed value prints as non-empty text opening with a value
/// character (never whitespace or a closing delimiter).
pub proof fn lemma_print_head(j: JsonV, pretty: bool, ind: nat)
    requires
        wf_jv(j),
    ensures
        print_jv(j, pretty, ind).len() > 0,
        is_value_start(print_jv(j, pretty, ind)[0]),
{
}

/// Parsing the escaped form of a string recovers exactly that string and
/// leaves exactly the input that followed the closing quote.
pub proof fn lemma_parse_esc(cs: Seq<char>, rest: Seq<char>)
    ensures
        parse_str_body(esc_str(cs) + seq!['"'] + rest) == Some((cs, rest)),
    decreases cs.len(),
{
    let s = esc_str(cs) + seq!['"'] + rest;
    if cs.len() == 0 {
        assert(s =~= seq!['"'] + rest);
        assert(s.drop_first() =~= rest);
    } else {
        let c = cs[0];
        lemma_parse_esc(cs.drop_first(), rest);
        let inner = esc_str(cs.drop_first()) + seq!['"'] + rest;
        if c == '"' || c == '\\' || c == '\n' || c == '\r' || c == '\t' {
            assert(esc_char(c).len() == 2 && esc_char(c)[0] == '\\');
            assert(s =~= esc_char(c) + inner);
            assert(s.skip(2) =~= inner);
            assert(is_escape_letter(s[1]));
            assert(unescaped(s[1]) == c);
            assert(seq![c] + cs.drop_first() =~= cs);
        } else {
            assert(esc_char(c) =~= seq![c]);
            assert(s =~= seq![c] + inner);
            assert(s.drop_first() =~= inner);
            assert(s[0] == c && c != '"' && c != '\\');
            assert(seq![c] + cs.drop_first() =~= cs);
        }
    }
}

/// Round trip: parsing the printed form of a well-formed value, in either
/// layout and at any depth, recovers exactly that value and leaves exactly
/// the input that followed it.
#[verifier::rlimit(100)]
#[verifier::spinoff_prover]
pub proof fn lemma_print_parse(j: JsonV, pretty: bool, ind: nat, rest: Seq<char>)
    requires
        wf_jv(j),
    ensures
        parse_val(print_jv(j, pretty, ind) + rest) == Some((j, rest)),
    decreases j, 1int,
{
    let p = print_jv(j, pretty, ind);
    let s = p + rest;
    lemma_print_head(j, pretty, ind);
    assert(s[0] == p[0]);
    assert(skip_ws(s) == s);
    match j {
        JsonV::Null => {
            assert(s.skip(4) =~= rest);
        },
        JsonV::Bool(b) => {
            if b {
                assert(s.skip(4) =~= rest);
            } else {
                assert(s.skip(5) =~= rest);
            }
        },
        JsonV::Num(_) => {},
        JsonV::Str(cs) => {
            assert(s.drop_first() =~= esc_str(cs) + seq!['"'] + rest);
            lemma_parse_esc(cs, rest);
        },
        JsonV::Arr(items) => {
            if items.len() == 0 {
                assert(s.drop_first() =~= seq![']'] + rest);
                let t2 = s.drop_first();
                assert(!is_ws(t2[0]));
                assert(skip_ws(t2) == t2);
                assert(t2.drop_first() =~= rest);
                assert(items =~= Seq::<JsonV>::empty());
            } else {
                let s2 = print_items(items, pretty, bump(ind), 0) + break_indent(pretty, ind)
                    + seq![']'] + rest;
                assert(s.drop_first() =~= s2);
                lemma_parse_printed_arr(items, pretty, ind, rest);
                assert(parse_arr(s2) == Some((items, rest)));
            }
        },
        JsonV::Obj(members) => {
            if members.len() == 0 {
                assert(s.drop_first() =~= seq!['}'] + rest);
                let t2 = s.drop_first();
                assert(!is_ws(t2[0]));
                assert(skip_ws(t2) == t2);
                assert(t2.drop_first() =~= rest);
                assert(members =~= Seq::<(Seq<char>, JsonV)>::empty());
            } else {
                let s2 = print_members(members, pretty, bump(ind), 0) + break_indent(pretty, ind)
                    + seq!['}'] + rest;
                assert(s.drop_first() =~= s2);
                lemma_parse_printed_obj(members, pretty, ind, rest);
                assert(parse_obj(s2) == Some((members, rest)));
            }
        },
    }
}

/// The body of a printed non-empty array parses back to its elements.
#[verifier::spinoff_prover]
pub proof fn lemma_parse_printed_arr(
    items: Seq<JsonV>,
    pretty: bool,
    ind: nat,
    rest: Seq<char>,
)
    requires
        items.len() > 0,
        forall|k: int| 0 <= k < items.len() ==> wf_jv(#[trigger] items[k]),
    ensures
        parse_arr(
            print_items(items, pretty, bump(ind), 0) + break_indent(pretty, ind) + seq![']'] + rest,
        ) == Some((items, rest)),
    decreases items, items.len(), 1int,
{
    let tail = break_indent(pretty, ind);
    lemma_break_indent_all_ws(pretty, ind);
    let s2 = print_items(items, pretty, bump(ind), 0) + tail + seq![']'] + rest;
    let head = print_jv(items[0], pretty, bump(ind));
    lemma_print_head(items[0], pretty, bump(ind));
    lemma_break_indent_all_ws(pretty, bump(ind));
    let u = head + (if 0 + 1 < items.len() {
        seq![',']
    } else {
        Seq::<char>::empty()
    }) + print_items(items, pretty, bump(ind), 1) + tail + seq![']'] + rest;
    assert(s2 =~= break_indent(pretty, bump(ind)) + u);
    lemma_skip_ws_concat(break_indent(pretty, bump(ind)), u);
    assert(u[0] == head[0]);
    assert(skip_ws(u) == u);
    assert(skip_ws(s2) == u);
    assert(u.len() > 0 && !is_ws(u[0]) && u[0] != ']');
    lemma_print_parse_items(items, pretty, bump(ind), 0, tail, rest);
    assert(items.skip(0) =~= items);
}

/// The body of a printed non-empty object parses back to its members.
#[verifier::spinoff_prover]
pub proof fn lemma_parse_printed_obj(
    members: Seq<(Seq<char>, JsonV)>,
    pretty: bool,
    ind: nat,
    rest: Seq<char>,
)
    requires
        members.len() > 0,
        forall|k: int| 0 <= k < members.len() ==> wf_jv(#[trigger] members[k].1),
    ensures
        parse_obj(
            print_members(members, pretty, bump(ind), 0) + break_indent(pretty, ind) + seq!['}']
                + rest,
        ) == Some((members, rest)),
    decreases members, members.len(), 1int,
{
    let tail = break_indent(pretty, ind);
    lemma_break_indent_all_ws(pretty, ind);
    let s2 = print_members(members, pretty, bump(ind), 0) + tail + seq!['}'] + rest;
    let u = print_str(members[0].0) + seq![':'] + (if pretty {
        seq![' ']
    } else {
        Seq::<char>::empty()
    }) + print_jv(members[0].1, pretty, bump(ind)) + (if 0 + 1 < members.len() {
        seq![',']
    } else {
        Seq::<char>::empty()
    }) + print_members(members, pretty, bump(ind), 1) + tail + seq!['}'] + rest;
    assert(s2 =~= break_indent(pretty, bump(ind)) + u);
    lemma_break_indent_all_ws(pretty, bump(ind));
    lemma_skip_ws_concat(break_indent(pretty, bump(ind)), u);
    assert(u[0] == '"');
    assert(skip_ws(u) == u);
    assert(skip_ws(s2) == u);
    lemma_print_parse_members(members, pretty, bump(ind), 0, tail, rest);
    assert(members.skip(0) =~= members);
}

/// Round trip for the printed elements of a non-empty array, from any
/// element on: parsing recovers those elements and the closing bracket.
#[verifier::rlimit(100)]
#[verifier::spinoff_prover]
pub proof fn lemma_print_parse_items(
    items: Seq<JsonV>,
    pretty: bool,
    ind: nat,
    i: int,
    tail: Seq<char>,
    rest: Seq<char>,
)
    requires
        0 <= i < items.len(),
        forall|k: int| 0 <= k < items.len() ==> wf_jv(#[trigger] items[k]),
        all_ws(tail),
    ensures
        parse_items(print_items(items, pretty, ind, i) + tail + seq![']'] + rest) == Some(
            (items.skip(i), rest),
        ),
    decreases items, items.len() - i, 0int,
{
    let s = print_items(items, pretty, ind, i) + tail + seq![']'] + rest;
    let head = print_jv(items[i], pretty, ind);
    let sep: Seq<char> = if i + 1 < items.len() {
        seq![',']
    } else {
        Seq::empty()
    };
    let after = sep + print_items(items, pretty, ind, i + 1) + tail + seq![']'] + rest;
    assert(s =~= break_indent(pretty, ind) + (head + after));
    lemma_break_indent_all_ws(pretty, ind);
    lemma_skip_ws_concat(break_indent(pretty, ind), head + after);
    lemma_parse_val_ws(s, head + after);
    lemma_print_parse(items[i], pretty, ind, after);
    assert(parse_val(s) == Some((items[i], after)));
    lemma_print_head(items[i], pretty, ind);
    assert(after.len() < s.len());
    assert(bounded(s, after) == after);
    if i + 1 < items.len() {
        assert(after[0] == ',');
        assert(skip_ws(after) == after);
        assert(after.drop_first() =~= print_items(items, pretty, ind, i + 1) + tail + seq![']']
            + rest);
        lemma_print_parse_items(items, pretty, ind, i + 1, tail, rest);
        assert(seq![items[i]] + items.skip(i + 1) =~= items.skip(i));
    } else {
        assert(print_items(items, pretty, ind, i + 1) =~= Seq::<char>::empty());
        assert(after =~= tail + (seq![']'] + rest));
        lemma_skip_ws_concat(tail, seq![']'] + rest);
        assert(skip_ws(seq![']'] + rest) == seq![']'] + rest);
        let u = seq![']'] + rest;
        assert(skip_ws(after) == u);
        assert(u[0] == ']');
        assert(u.drop_first() =~= rest);
        assert(seq![items[i]] =~= items.skip(i));
    }
}

/// Round trip for the printed members of a non-empty object, from any
/// member on: parsing recovers those members and the closing brace.
#[verifier::rlimit(100)]
#[verifier::spinoff_prover]
pub proof fn lemma_print_parse_members(
    members: Seq<(Seq<char>, JsonV)>,
    pretty: bool,
    ind: nat,
    i: int,
    tail: Seq<char>,
    rest: Seq<char>,
)
    requires
        0 <= i < members.len(),
        forall|k: int| 0 <= k < members.len() ==> wf_jv(#[trigger] members[k].1),
        all_ws(tail),
    ensures
        parse_members(print_members(members, pretty, ind, i) + tail + seq!['}'] + rest) == Some(
            (members.skip(i), rest),
        ),
    decreases members, members.len() - i, 0int,
{
    let s = print_members(members, pretty, ind, i) + tail + seq!['}'] + rest;
    let key = members[i].0;
    let v = members[i].1;
    let sp: Seq<char> = if pretty {
        seq![' ']
    } else {
        Seq::empty()
    };
    let sep: Seq<char> = if i + 1 < members.len() {
        seq![',']
    } else {
        Seq::empty()
    };
    // input after the member's closing quote: colon, value, and the rest
    let after_key = seq![':'] + sp + print_jv(v, pretty, ind) + sep + print_members(
        members,
        pretty,
        ind,
        i + 1,
    ) + tail + seq!['}'] + rest;
    // input after the member's value
    let after_val = sep + print_members(members, pretty, ind, i + 1) + tail + seq!['}'] + rest;
    let keyed = print_str(key) + after_key;
    assert(s =~= break_indent(pretty, ind) + keyed);
    lemma_break_indent_all_ws(pretty, ind);
    lemma_skip_ws_concat(break_indent(pretty, ind), keyed);
    assert(keyed[0] == '"');
    assert(skip_ws(keyed) == keyed);
    assert(skip_ws(s) == keyed);
    assert(keyed.drop_first() =~= esc_str(key) + seq!['"'] + after_key);
    lemma_parse_esc(key, after_key);
    assert(after_key.len() < s.len());
    assert(bounded(s, after_key) == after_key);
    assert(after_key[0] == ':');
    assert(skip_ws(after_key) == after_key);
    assert(after_key.drop_first() =~= sp + (print_jv(v, pretty, ind) + after_val));
    assert(all_ws(sp));
    lemma_skip_ws_concat(sp, print_jv(v, pretty, ind) + after_val);
    lemma_parse_val_ws(after_key.drop_first(), print_jv(v, pretty, ind) + after_val);
    lemma_print_parse(v, pretty, ind, after_val);
    assert(parse_val(after_key.drop_first()) == Some((v, after_val)));
    lemma_print_head(v, pretty, ind);
    assert(after_val.len() < s.len());
    assert(bounded(s, after_val) == after_val);
    if i + 1 < members.len() {
        assert(after_val[0] == ',');
        assert(skip_ws(after_val) == after_val);
        assert(after_val.drop_first() =~= print_members(members, pretty, ind, i + 1) + tail
            + seq!['}'] + rest);
        lemma_print_parse_members(members, pretty, ind, i + 1, tail, rest);
        assert((key, v) == members[i]);
        assert(seq![members[i]] + members.skip(i + 1) =~= members.skip(i));
    } else {
        assert(print_members(members, pretty, ind, i + 1) =~= Seq::<char>::empty());
        assert(after_val =~= tail + (seq!['}'] + rest));
        lemma_skip_ws_concat(tail, seq!['}'] + rest);
        let u = seq!['}'] + rest;
        assert(skip_ws(u) == u);
        assert(skip_ws(after_val) == u);
        assert(u[0] == '}');
        assert(u.drop_first() =~= rest);
        assert((key, v) == members[i]);
        assert(seq![members[i]] =~= members.skip(i));
    }
}

/// Round trip at the whole-document level, in either layout.
pub proof fn lemma_print_parse_text(j: JsonV, pretty: bool)
    requires
        wf_jv(j),
    ensures
        parse_text(print_jv(j, pretty, 0)) == Some(j),
{
    let p = print_jv(j, pretty, 0);
    lemma_print_parse(j, pretty, 0, Seq::empty());
    assert(p + Seq::<char>::empty() =~= p);
    assert(parse_val(p) == Some((j, Seq::<char>::empty())));
}

/// Appending a character to a string appends its escape to the printed
/// body.
pub proof fn lemma_esc_str_push(s: Seq<char>, x: char)
    ensures
        esc_str(s.push(x)) == esc_str(s) + esc_char(x),
    decreases s.len(),
{
    if s.len() == 0 {
        assert(s.push(x)[0] == x);
        assert(s.push(x).drop_first() =~= Seq::<char>::empty());
        assert(esc_str(Seq::<char>::empty()) =~= Seq::<char>::empty());
        assert(esc_str(s.push(x)) =~= esc_char(x) + esc_str(Seq::<char>::empty()));
        assert(esc_char(x) + Seq::<char>::empty() =~= esc_char(x));
        assert(esc_str(s) + esc_char(x) =~= esc_char(x));
    } else {
        assert(s.push(x)[0] == s[0]);
        assert(s.push(x).drop_first() =~= s.drop_first().push(x));
        lemma_esc_str_push(s.drop_first(), x);
        assert(esc_char(s[0]) + (esc_str(s.drop_first()) + esc_char(x)) =~= (esc_char(s[0])
            + esc_str(s.drop_first())) + esc_char(x));
    }
}

/// Appends the escaped body of `s` to `out`.
fn write_escaped(s: &str, out: &mut Vec<char>)
    ensures
        final(out)@ == old(out)@ + esc_str(s@),
{
    let cs = str_to_chars(s);
    let ghost base = out@;
    let mut i: usize = 0;
    while i < cs.len()
        invariant
            i <= cs@.len(),
            cs@ == s@,
            out@ == base + esc_str(s@.take(i as int)),
        decreases cs@.len() - i,
    {
        let c = cs[i];
        if c == '"' {
            out.push('\\');
            out.push('"');
        } else if c == '\\' {
            out.push('\\');
            out.push('\\');
        } else if c == '\n' {
            out.push('\\');
            out.push('n');
        } else if c == '\r' {
            out.push('\\');
            out.push('r');
        } else if c == '\t' {
            out.push('\\');
            out.push('t');
        } else {
            out.push(c);
        }
        proof {
            lemma_esc_str_push(s@.take(i as int), s@[i as int]);
            assert(s@.take((i + 1) as int) =~= s@.take(i as int).push(s@[i as int]));
            assert(base + esc_str(s@.take(i as int)) + esc_char(s@[i as int]) =~= base + (esc_str(
                s@.take(i as int),
            ) + esc_char(s@[i as int])));
        }
        i += 1;
    }
    proof {
        assert(s@.take(s@.len() as int) =~= s@);
    }
}

/// Appends a quoted, escaped string literal to `out`.
fn write_str(s: &str, out: &mut Vec<char>)
    ensures
        final(out)@ == old(out)@ + print_str(s@),
{
    let ghost base = out@;
    out.push('"');
    write_escaped(s, out);
    out.push('"');
    proof {
        assert(base + print_str(s@) =~= ((base + seq!['"']) + esc_str(s@)).push('"'));
    }
}

/// Appends a line break and indentation to `out` in the readable layout,
/// and nothing otherwise.
fn write_break(pretty: bool, ind: usize, out: &mut Vec<char>)
    ensures
        final(out)@ == old(out)@ + break_indent(pretty, ind as nat),
{
    if pretty {
        let ghost base = out@;
        out.push('\n');
        let cap: usize = if ind > 100 {
            100
        } else {
            ind
        };
        let total: usize = 2 * cap;
        let mut k: usize = 0;
        proof {
            assert(total as nat == 2 * capped(ind as nat));
        }
        while k < total
            invariant
                k <= total,
                out@ == base + seq!['\n'] + spaces(k as nat),
            decreases total - k,
        {
            out.push(' ');
            k += 1;
        }
        proof {
            assert(base + break_indent(pretty, ind as nat) =~= base + seq!['\n'] + spaces(
                total as nat,
            ));
        }
    } else {
        proof {
            assert(old(out)@ + break_indent(pretty, ind as nat) =~= old(out)@);
        }
    }
}

/// The saturating depth below `ind`.
fn bump_exec(ind: usize) -> (r: usize)
    ensures
        r as nat == bump(ind as nat),
{
    if ind < 101 {
        ind + 1
    } else {
        ind
    }
}

/// The deep view of an array value is the deep view of its element vector.
pub proof fn lemma_arr_view(items: &Vec<Json>)
    ensures
        Json::Arr(*items).deep_view() == JsonV::Arr(items.deep_view()),
{
    let j = Json::Arr(*items);
    assert(j.deep_view() is Arr);
    let a = j.deep_view()->Arr_0;
    assert(a.len() == items@.len());
    let b = items.deep_view();
    assert forall|k: int| 0 <= k < items@.len() implies a[k] == b[k] by {
        assert(j.deep_view() is Arr);
        assert(a[k] == items@[k].deep_view());
        assert(b[k] == items@[k].deep_view());
    }
    assert(a =~= b);
}

/// The deep view of an object value is the deep view of its member vector.
pub proof fn lemma_obj_view(members: &Vec<(String, Json)>)
    ensures
        Json::Obj(*members).deep_view() == JsonV::Obj(members.deep_view()),
{
    let j = Json::Obj(*members);
    assert(j.deep_view() is Obj);
    let a = j.deep_view()->Obj_0;
    assert(a.len() == members@.len());
    let b = members.deep_view();
    assert forall|k: int| 0 <= k < members@.len() implies a[k] == b[k] by {
        assert(j.deep_view() is Obj);
        assert(a[k] == member_view(members@[k]));
        assert(b[k] == members@[k].deep_view());
    }
    assert(a =~= b);
}

/// Appends the printed elements of a non-empty array to `out`.
fn write_items(items: &Vec<Json>, pretty: bool, ind: usize, out: &mut Vec<char>)
    requires
        items@.len() > 0,
    ensures
        final(out)@ == old(out)@ + print_items(items.deep_view(), pretty, ind as nat, 0),
    decreases items,
{
    let ghost dv = items.deep_view();
    let ghost start = out@;
    let mut i: usize = 0;
    while i < items.len()
        invariant
            i <= items@.len(),
            dv == items.deep_view(),
            dv.len() == items@.len(),
            out@ + print_items(dv, pretty, ind as nat, i as int) == start + print_items(
                dv,
                pretty,
                ind as nat,
                0,
            ),
        decreases items@.len() - i,
    {
        let ghost before = out@;
        write_break(pretty, ind, out);
        write_json(&items[i], pretty, ind, out);
        if i + 1 < items.len() {
            out.push(',');
        }
        proof {
            let sep: Seq<char> = if i + 1 < items@.len() {
                seq![',']
            } else {
                Seq::empty()
            };
            assert(dv[i as int] == items@[i as int].deep_view());
            assert(out@ =~= before + (break_indent(pretty, ind as nat) + print_jv(
                dv[i as int],
                pretty,
                ind as nat,
            ) + sep));
            assert(print_items(dv, pretty, ind as nat, i as int) =~= (break_indent(
                pretty,
                ind as nat,
            ) + print_jv(dv[i as int], pretty, ind as nat) + sep) + print_items(
                dv,
                pretty,
                ind as nat,
                i as int + 1,
            ));
            assert(out@ + print_items(dv, pretty, ind as nat, i as int + 1) =~= before
                + print_items(dv, pretty, ind as nat, i as int));
        }
        i += 1;
    }
    proof {
        assert(print_items(dv, pretty, ind as nat, items@.len() as int) =~= Seq::<char>::empty());
        assert(out@ + print_items(dv, pretty, ind as nat, items@.len() as int) =~= out@);
    }
}

/// Appends the printed members of a non-empty object to `out`.
fn write_members(members: &Vec<(String, Json)>, pretty: bool, ind: usize, out: &mut Vec<char>)
    requires
        members@.len() > 0,
    ensures
        final(out)@ == old(out)@ + print_members(members.deep_view(), pretty, ind as nat, 0),
    decreases members,
{
    let ghost dv = members.deep_view();
    let ghost start = out@;
    let mut i: usize = 0;
    while i < members.len()
        invariant
            i <= members@.len(),
            dv == members.deep_view(),
            dv.len() == members@.len(),
            out@ + print_members(dv, pretty, ind as nat, i as int) == start + print_members(
                dv,
                pretty,
                ind as nat,
                0,
            ),
        decreases members@.len() - i,
    {
        let ghost before = out@;
        write_break(pretty, ind, out);
        write_str(members[i].0.as_str(), out);
        out.push(':');
        if pretty {
            out.push(' ');
        }
        write_json(&members[i].1, pretty, ind, out);
        if i + 1 < members.len() {
            out.push(',');
        }
        proof {
            let sp: Seq<char> = if pretty {
                seq![' ']
            } else {
                Seq::empty()
            };
            let sep: Seq<char> = if i + 1 < members@.len() {
                seq![',']
            } else {
                Seq::empty()
            };
            assert(dv[i as int] == members@[i as int].deep_view());
            assert(dv[i as int].0 == members@[i as int].0@);
            assert(dv[i as int].1 == members@[i as int].1.deep_view());
            let piece = break_indent(pretty, ind as nat) + print_str(dv[i as int].0) + seq![':']
                + sp + print_jv(dv[i as int].1, pretty, ind as nat) + sep;
            assert(out@ =~= before + piece);
            assert(print_members(dv, pretty, ind as nat, i as int) =~= piece + print_members(
                dv,
                pretty,
                ind as nat,
                i as int + 1,
            ));
            assert(out@ + print_members(dv, pretty, ind as nat, i as int + 1) =~= before
                + print_members(dv, pretty, ind as nat, i as int));
        }
        i += 1;
    }
    proof {
        assert(print_members(dv, pretty, ind as nat, members@.len() as int)
            =~= Seq::<char>::empty());
        assert(out@ + print_members(dv, pretty, ind as nat, members@.len() as int) =~= out@);
    }
}

/// Appends the text of `j` to `out`: the readable layout when `pretty`
/// holds, the compact one otherwise.
#[verifier::rlimit(100)]
#[verifier::spinoff_prover]
pub fn write_json(j: &Json, pretty: bool, ind: usize, out: &mut Vec<char>)
    ensures
        final(out)@ == old(out)@ + print_jv(j.deep_view(), pretty, ind as nat),
    decreases j,
{
    let ghost base = out@;
    match j {
        Json::Null => {
            out.push('n');
            out.push('u');
            out.push('l');
            out.push('l');
            proof {
                assert(out@ =~= base + print_jv(j.deep_view(), pretty, ind as nat));
            }
        },
        Json::Bool(b) => {
            if *b {
                out.push('t');
                out.push('r');
                out.push('u');
                out.push('e');
            } else {
                out.push('f');
                out.push('a');
                out.push('l');
                out.push('s');
                out.push('e');
            }
            proof {
                assert(out@ =~= base + print_jv(j.deep_view(), pretty, ind as nat));
            }
        },
        Json::Num(tok) => {
            let cs = str_to_chars(tok);
            let mut i: usize = 0;
            while i < cs.len()
                invariant
                    i <= cs@.len(),
                    cs@ == tok@,
                    out@ == base + tok@.take(i as int),
                decreases cs@.len() - i,
            {
                out.push(cs[i]);
                proof {
                    assert(tok@.take((i + 1) as int) =~= tok@.take(i as int).push(tok@[i as int]));
                }
                i += 1;
            }
            proof {
                assert(tok@.take(tok@.len() as int) =~= tok@);
            }
        },
        Json::Str(s) => {
            write_str(s.as_str(), out);
        },
        Json::Arr(items) => {
            proof {
                assert(*j == Json::Arr(*items));
                lemma_arr_view(items);
            }
            if items.len() == 0 {
                out.push('[');
                out.push(']');
                proof {
                    assert(out@ =~= base + print_jv(j.deep_view(), pretty, ind as nat));
                }
            } else {
                out.push('[');
                let inner = bump_exec(ind);
                write_items(items, pretty, inner, out);
                write_break(pretty, ind, out);
                out.push(']');
                proof {
                    assert(out@ =~= base + print_jv(j.deep_view(), pretty, ind as nat));
                }
            }
        },
        Json::Obj(members) => {
            proof {
                assert(*j == Json::Obj(*members));
                lemma_obj_view(members);
            }
            if members.len() == 0 {
                out.push('{');
                out.push('}');
                proof {
                    assert(out@ =~= base + print_jv(j.deep_view(), pretty, ind as nat));
                }
            } else {
                out.push('{');
                let inner = bump_exec(ind);
                write_members(members, pretty, inner, out);
                write_break(pretty, ind, out);
                out.push('}');
                proof {
                    assert(out@ =~= base + print_jv(j.deep_view(), pretty, ind as nat));
                }
            }
        },
    }
}

/// The text of a JSON value, in the compact or the readable layout.
pub fn json_to_string(j: &Json, pretty: bool) -> (r: String)
    ensures
        r@ == print_jv(j.deep_view(), pretty, 0),
{
    let mut out: Vec<char> = Vec::new();
    write_json(j, pretty, 0, &mut out);
    crate::text::chars_to_string(out.as_slice())
}

/// Pushing onto a vector of values pushes its deep view.
pub proof fn lemma_push_view(a: Vec<Json>, b: Vec<Json>, x: Json)
    requires
        b@ == a@.push(x),
    ensures
        b.deep_view() == a.deep_view().push(x.deep_view()),
{
    let l = b.deep_view();
    let r = a.deep_view().push(x.deep_view());
    assert forall|k: int| 0 <= k < l.len() implies l[k] == r[k] by {
        assert(l[k] == b@[k].deep_view());
        if k < a@.len() {
            assert(b@[k] == a@[k]);
            assert(r[k] == a@[k].deep_view());
        } else {
            assert(b@[k] == x);
        }
    }
    assert(l =~= r);
}

/// Pushing onto a vector of members pushes its deep view.
pub proof fn lemma_push_member_view(
    a: Vec<(String, Json)>,
    b: Vec<(String, Json)>,
    key: String,
    x: Json,
)
    requires
        b@ == a@.push((key, x)),
    ensures
        b.deep_view() == a.deep_view().push((key@, x.deep_view())),
{
    let l = b.deep_view();
    let r = a.deep_view().push((key@, x.deep_view()));
    assert forall|k: int| 0 <= k < l.len() implies l[k] == r[k] by {
        assert(l[k] == b@[k].deep_view());
        assert(b@[k].deep_view() == (b@[k].0.deep_view(), b@[k].1.deep_view()));
        if k < a@.len() {
            assert(b@[k] == a@[k]);
            assert(r[k] == a@[k].deep_view());
            assert(a@[k].deep_view() == (a@[k].0.deep_view(), a@[k].1.deep_view()));
        } else {
            assert(b@[k] == (key, x));
        }
    }
    assert(l =~= r);
}

/// Whether the parser treats `c` as whitespace.
fn is_ws_exec(c: char) -> (r: bool)
    ensures
        r == is_ws(c),
{
    c == ' ' || c == '\n' || c == '\t' || c == '\r'
}

/// The input after its leading whitespace.
pub(crate) fn skip_ws_exec(s: &[char]) -> (r: &[char])
    ensures
        r@ == skip_ws(s@),
{
    let mut cur: &[char] = s;
    while cur.len() > 0 && is_ws_exec(cur[0])
        invariant
            skip_ws(s@) == skip_ws(cur@),
        decreases cur@.len(),
    {
        proof {
            assert(cur@.drop_first() =~= cur@.subrange(1, cur@.len() as int));
        }
        cur = slice_subrange(cur, 1, cur.len());
    }
    cur
}

/// Whether `c` may continue a raw number token.
fn is_num_char_exec(c: char) -> (r: bool)
    ensures
        r == is_num_char(c),
{
    ('0' <= c && c <= '9') || c == '-' || c == '+' || c == '.' || c == 'e' || c == 'E'
}

/// The length of the raw number token at the head of the input.
fn num_len_exec(s: &[char]) -> (n: usize)
    ensures
        n == num_len(s@),
{
    let mut i: usize = 0;
    proof {
        assert(s@.skip(0) =~= s@);
    }
    while i < s.len() && is_num_char_exec(s[i])
        invariant
            i <= s@.len(),
            num_len(s@) == i + num_len(s@.skip(i as int)),
        decreases s@.len() - i,
    {
        proof {
            assert(s@.skip(i as int)[0] == s@[i as int]);
            assert(s@.skip(i as int).drop_first() =~= s@.skip(i as int + 1));
        }
        i += 1;
    }
    proof {
        if i < s@.len() {
            assert(s@.skip(i as int)[0] == s@[i as int]);
        }
        assert(num_len(s@.skip(i as int)) == 0);
    }
    i
}

/// Parses a string body after its opening quote, decoding escapes.
fn parse_str_body_exec<'a>(s: &'a [char]) -> (r: Option<(String, &'a [char])>)
    ensures
        match r {
            Some((cs, rest)) => parse_str_body(s@) == Some((cs@, rest@)),
            None => parse_str_body(s@) is None,
        },
{
    let mut out = String::new();
    let mut cur: &[char] = s;
    loop
        invariant
            match parse_str_body(cur@) {
                Some((cs, r)) => parse_str_body(s@) == Some((out@ + cs, r)),
                None => parse_str_body(s@) is None,
            },
        decreases cur@.len(),
    {
        if cur.len() == 0 {
            return None;
        }
        let c = cur[0];
        if c == '"' {
            let rest = slice_subrange(cur, 1, cur.len());
            proof {
                assert(cur@.drop_first() =~= rest@);
                assert(out@ + Seq::<char>::empty() =~= out@);
            }
            return Some((out, rest));
        } else if c == '\\' {
            if cur.len() < 2 {
                return None;
            }
            let e = cur[1];
            if e == '"' || e == '\\' || e == '/' || e == 'n' || e == 'r' || e == 't' || e == 'b'
                || e == 'f' {
                let u: char = if e == 'n' {
                    '\n'
                } else if e == 'r' {
                    '\r'
                } else if e == 't' {
                    '\t'
                } else if e == 'b' {
                    '\u{0008}'
                } else if e == 'f' {
                    '\u{000c}'
                } else {
                    e
                };
                let ghost prev = cur@;
                let ghost prev_out = out@;
                push_char(&mut out, u);
                cur = slice_subrange(cur, 2, cur.len());
                proof {
                    assert(u == unescaped(prev[1]));
                    assert(prev.skip(2) =~= cur@);
                    if parse_str_body(cur@) is Some {
                        let (cs, r) = parse_str_body(cur@)->Some_0;
                        assert(parse_str_body(prev) == Some((seq![u] + cs, r)));
                        assert(prev_out + (seq![u] + cs) =~= (prev_out.push(u)) + cs);
                    }
                }
            } else {
                return None;
            }
        } else {
            let ghost prev = cur@;
            let ghost prev_out = out@;
            push_char(&mut out, c);
            cur = slice_subrange(cur, 1, cur.len());
            proof {
                assert(prev.drop_first() =~= cur@);
                if parse_str_body(cur@) is Some {
                    let (cs, r) = parse_str_body(cur@)->Some_0;
                    assert(parse_str_body(prev) == Some((seq![c] + cs, r)));
                    assert(prev_out + (seq![c] + cs) =~= (prev_out.push(c)) + cs);
                }
            }
        }
    }
}

/// Parses one JSON value at the head of the input.
pub fn parse_val_exec<'a>(s: &'a [char]) -> (r: Option<(Json, &'a [char])>)
    ensures
        match r {
            Some((j, rest)) => parse_val(s@) == Some((j.deep_view(), rest@)),
            None => parse_val(s@) is None,
        },
    decreases s@.len(), 0int,
{
    let t = skip_ws_exec(s);
    proof {
        lemma_skip_ws_len(s@);
    }
    if t.len() == 0 {
        return None;
    }
    let c = t[0];
    if c == 'n' {
        if t.len() >= 4 && t[1] == 'u' && t[2] == 'l' && t[3] == 'l' {
            Some((Json::Null, slice_subrange(t, 4, t.len())))
        } else {
            None
        }
    } else if c == 't' {
        if t.len() >= 4 && t[1] == 'r' && t[2] == 'u' && t[3] == 'e' {
            Some((Json::Bool(true), slice_subrange(t, 4, t.len())))
        } else {
            None
        }
    } else if c == 'f' {
        if t.len() >= 5 && t[1] == 'a' && t[2] == 'l' && t[3] == 's' && t[4] == 'e' {
            Some((Json::Bool(false), slice_subrange(t, 5, t.len())))
        } else {
            None
        }
    } else if c == '"' {
        match parse_str_body_exec(slice_subrange(t, 1, t.len())) {
            Some((cs, rest)) => {
                proof {
                    assert(t@.drop_first() =~= t@.subrange(1, t@.len() as int));
                }
                Some((Json::Str(cs), rest))
            },
            None => {
                proof {
                    assert(t@.drop_first() =~= t@.subrange(1, t@.len() as int));
                }
                None
            },
        }
    } else if c == '[' {
        proof {
            assert(t@.drop_first() =~= t@.subrange(1, t@.len() as int));
        }
        match parse_arr_exec(slice_subrange(t, 1, t.len())) {
            Some((vs, rest)) => {
                proof {
                    lemma_arr_view(&vs);
                }
                Some((Json::Arr(vs), rest))
            },
            None => None,
        }
    } else if c == '{' {
        proof {
            assert(t@.drop_first() =~= t@.subrange(1, t@.len() as int));
        }
        match parse_obj_exec(slice_subrange(t, 1, t.len())) {
            Some((ms, rest)) => {
                proof {
                    lemma_obj_view(&ms);
                }
                Some((Json::Obj(ms), rest))
            },
            None => None,
        }
    } else if c == '-' || ('0' <= c && c <= '9') {
        let n = num_len_exec(t);
        proof {
            lemma_num_len(t@);
        }
        let tok = chars_to_string(slice_subrange(t, 0, n));
        proof {
            assert(t@.subrange(0, n as int) =~= t@.take(num_len(t@)));
        }
        Some((Json::Num(tok), slice_subrange(t, n, t.len())))
    } else {
        None
    }
}

/// Parses the elements of an array after its opening bracket.
#[verifier::loop_isolation(false)]
fn parse_arr_exec<'a>(s: &'a [char]) -> (r: Option<(Vec<Json>, &'a [char])>)
    ensures
        match r {
            Some((vs, rest)) => parse_arr(s@) == Some((vs.deep_view(), rest@)),
            None => parse_arr(s@) is None,
        },
    decreases s@.len(), 2int,
{
    let t = skip_ws_exec(s);
    proof {
        lemma_skip_ws_len(s@);
    }
    if t.len() == 0 {
        return None;
    }
    if t[0] == ']' {
        let vs: Vec<Json> = Vec::new();
        proof {
            assert(t@.drop_first() =~= t@.subrange(1, t@.len() as int));
            assert(vs.deep_view() =~= Seq::<JsonV>::empty());
        }
        return Some((vs, slice_subrange(t, 1, t.len())));
    }
    let mut acc: Vec<Json> = Vec::new();
    let mut cur: &[char] = s;
    proof {
        assert(acc.deep_view() =~= Seq::<JsonV>::empty());
        if parse_items(s@) is Some {
            let (vs, rr) = parse_items(s@)->Some_0;
            assert(acc.deep_view() + vs =~= vs);
        }
    }
    loop
        invariant
            cur@.len() <= s@.len(),
            parse_arr(s@) == parse_items(s@),
            match parse_items(cur@) {
                Some((vs, rr)) => parse_items(s@) == Some((acc.deep_view() + vs, rr)),
                None => parse_items(s@) is None,
            },
        decreases cur@.len(),
    {
        match parse_val_exec(cur) {
            None => {
                return None;
            },
            Some((v, r0)) => {
                proof {
                    lemma_val_advances(cur@);
                    assert(bounded(cur@, r0@) == r0@);
                }
                let u = skip_ws_exec(r0);
                proof {
                    lemma_skip_ws_len(r0@);
                }
                if u.len() == 0 {
                    return None;
                }
                let ghost prev = cur@;
                let ghost prev_acc = acc.deep_view();
                if u[0] == ',' {
                    let ghost old_acc = acc;
                    acc.push(v);
                    cur = slice_subrange(u, 1, u.len());
                    proof {
                        lemma_push_view(old_acc, acc, v);
                        assert(u@.drop_first() =~= cur@);
                        if parse_items(cur@) is Some {
                            let (vs2, rr) = parse_items(cur@)->Some_0;
                            assert(parse_items(prev) == Some((seq![v.deep_view()] + vs2, rr)));
                            assert(prev_acc + (seq![v.deep_view()] + vs2) =~= acc.deep_view()
                                + vs2);
                        } else {
                            assert(parse_items(prev) is None);
                        }
                    }
                } else if u[0] == ']' {
                    let ghost old_acc = acc;
                    acc.push(v);
                    let rest = slice_subrange(u, 1, u.len());
                    proof {
                        lemma_push_view(old_acc, acc, v);
                        assert(u@.drop_first() =~= rest@);
                        assert(parse_items(prev) == Some((seq![v.deep_view()], rest@)));
                        assert(prev_acc + seq![v.deep_view()] =~= acc.deep_view());
                    }
                    return Some((acc, rest));
                } else {
                    return None;
                }
            },
        }
    }
}

/// Parses the members of an object after its opening brace.
#[verifier::loop_isolation(false)]
fn parse_obj_exec<'a>(s: &'a [char]) -> (r: Option<(Vec<(String, Json)>, &'a [char])>)
    ensures
        match r {
            Some((ms, rest)) => parse_obj(s@) == Some((ms.deep_view(), rest@)),
            None => parse_obj(s@) is None,
        },
    decreases s@.len(), 2int,
{
    let t = skip_ws_exec(s);
    proof {
        lemma_skip_ws_len(s@);
    }
    if t.len() == 0 {
        return None;
    }
    if t[0] == '}' {
        let ms: Vec<(String, Json)> = Vec::new();
        proof {
            assert(t@.drop_first() =~= t@.subrange(1, t@.len() as int));
            assert(ms.deep_view() =~= Seq::<(Seq<char>, JsonV)>::empty());
        }
        return Some((ms, slice_subrange(t, 1, t.len())));
    }
    let mut acc: Vec<(String, Json)> = Vec::new();
    let mut cur: &[char] = s;
    proof {
        assert(acc.deep_view() =~= Seq::<(Seq<char>, JsonV)>::empty());
        if parse_members(s@) is Some {
            let (ms, rr) = parse_members(s@)->Some_0;
            assert(acc.deep_view() + ms =~= ms);
        }
    }
    loop
        invariant
            cur@.len() <= s@.len(),
            parse_obj(s@) == parse_members(s@),
            match parse_members(cur@) {
                Some((ms, rr)) => parse_members(s@) == Some((acc.deep_view() + ms, rr)),
                None => parse_members(s@) is None,
            },
        decreases cur@.len(),
    {
        let tc = skip_ws_exec(cur);
        proof {
            lemma_skip_ws_len(cur@);
        }
        if tc.len() == 0 {
            return None;
        }
        if tc[0] != '"' {
            return None;
        }
        proof {
            assert(tc@.drop_first() =~= tc@.subrange(1, tc@.len() as int));
        }
        match parse_str_body_exec(slice_subrange(tc, 1, tc.len())) {
            None => {
                return None;
            },
            Some((key, r0)) => {
                proof {
                    lemma_str_body_advances(tc@.drop_first());
                    assert(bounded(cur@, r0@) == r0@);
                }
                let u = skip_ws_exec(r0);
                proof {
                    lemma_skip_ws_len(r0@);
                }
                if u.len() == 0 {
                    return None;
                }
                if u[0] != ':' {
                    return None;
                }
                proof {
                    assert(u@.drop_first() =~= u@.subrange(1, u@.len() as int));
                }
                match parse_val_exec(slice_subrange(u, 1, u.len())) {
                    None => {
                        return None;
                    },
                    Some((v, r1)) => {
                        proof {
                            lemma_val_advances(u@.drop_first());
                            assert(bounded(cur@, r1@) == r1@);
                        }
                        let w = skip_ws_exec(r1);
                        proof {
                            lemma_skip_ws_len(r1@);
                        }
                        if w.len() == 0 {
                            return None;
                        }
                        let ghost prev = cur@;
                        let ghost prev_acc = acc.deep_view();
                        if w[0] == ',' {
                            let ghost old_acc = acc;
                            acc.push((key, v));
                            cur = slice_subrange(w, 1, w.len());
                            proof {
                                lemma_push_member_view(old_acc, acc, key, v);
                                assert(w@.drop_first() =~= cur@);
                                if parse_members(cur@) is Some {
                                    let (ms2, rr) = parse_members(cur@)->Some_0;
                                    assert(parse_members(prev) == Some(
                                        (seq![(key@, v.deep_view())] + ms2, rr),
                                    ));
                                    assert(prev_acc + (seq![(key@, v.deep_view())] + ms2)
                                        =~= acc.deep_view() + ms2);
                                } else {
                                    assert(parse_members(prev) is None);
                                }
                            }
                        } else if w[0] == '}' {
                            let ghost old_acc = acc;
                            acc.push((key, v));
                            let rest = slice_subrange(w, 1, w.len());
                            proof {
                                lemma_push_member_view(old_acc, acc, key, v);
                                assert(w@.drop_first() =~= rest@);
                                assert(parse_members(prev) == Some(
                                    (seq![(key@, v.deep_view())], rest@),
                                ));
                                assert(prev_acc + seq![(key@, v.deep_view())]
                                    =~= acc.deep_view());
                            }
                            return Some((acc, rest));
                        } else {
                            return None;
                        }
                    },
                }
            },
        }
    }
}

/// Parses a whole document: one value with nothing but whitespace after.
pub fn parse_json_text(s: &str) -> (r: Option<Json>)
    ensures
        match r {
            Some(j) => parse_text(s@) == Some(j.deep_view()),
            None => parse_text(s@) is None,
        },
{
    let cs = str_to_chars(s);
    match parse_val_exec(cs.as_slice()) {
        None => None,
        Some((j, rest)) => {
            let rr = skip_ws_exec(rest);
            if rr.len() == 0 {
                Some(j)
            } else {
                None
            }
        },
    }
}

/// What well-formedness means for an array value.
pub proof fn lemma_wf_arr_iff(items: Seq<JsonV>)
    ensures
        wf_jv(JsonV::Arr(items)) <==> (forall|i: int|
            0 <= i < items.len() ==> wf_jv(#[trigger] items[i])),
{
    let j = JsonV::Arr(items);
    if (forall|i: int| 0 <= i < items.len() ==> wf_jv(#[trigger] items[i])) {
        assert(wf_jv(j));
    }
    if wf_jv(j) {
        match j {
            JsonV::Arr(its) => {
                assert forall|i: int| 0 <= i < items.len() implies wf_jv(
                    #[trigger] items[i],
                ) by {
                    assert(wf_jv(its[i]));
                }
            },
            _ => {},
        }
    }
}

/// What well-formedness means for an object value.
pub proof fn lemma_wf_obj_iff(members: Seq<(Seq<char>, JsonV)>)
    ensures
        wf_jv(JsonV::Obj(members)) <==> (forall|i: int|
            0 <= i < members.len() ==> wf_jv(#[trigger] members[i].1)),
{
    let j = JsonV::Obj(members);
    if (forall|i: int| 0 <= i < members.len() ==> wf_jv(#[trigger] members[i].1)) {
        assert(wf_jv(j));
    }
    if wf_jv(j) {
        match j {
            JsonV::Obj(its) => {
                assert forall|i: int| 0 <= i < members.len() implies wf_jv(
                    #[trigger] members[i].1,
                ) by {
                    assert(wf_jv(its[i].1));
                }
            },
            _ => {},
        }
    }
}

} // verus!

