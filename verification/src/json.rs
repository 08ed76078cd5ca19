//! Reading and writing the persisted configuration document.
//!
//! The document is a JSON object of the shape
//! `{ "editor": string|null, "bindings": { key: path, ... }|null }`.
//! [`to_json`] renders a configuration as a pretty-printed document whose
//! exact text is given by the spec function [`json_of`]; [`parse_config`]
//! accepts the grammar defined by the spec function [`parse_doc_s`]:
//! whitespace between tokens, the two members in either order and each at
//! most once, `null` for an absent editor or binding map, and string escapes
//! `\" \\ \/ \b \f \n \r \t` and `\u00XY`. An empty document stands for the
//! default configuration; any other text outside the grammar is rejected.

use vstd::prelude::*;
use vstd::string::StrSliceExecFns;
use vstd::string::StringExecFns;
use crate::config::{
    Binding, Config, ConfigView, bind_entries, insert_binding, pairs_of, unique_keys,
};

verus! {

/// Whitespace accepted between document tokens.
pub open spec fn is_ws(c: char) -> bool {
    c == ' ' || c == '\n' || c == '\t' || c == '\r'
}

/// The lower-case hexadecimal digit for a value below 16.
pub open spec fn hex_digit(n: int) -> char {
    if n == 0 {
        '0'
    } else if n == 1 {
        '1'
    } else if n == 2 {
        '2'
    } else if n == 3 {
        '3'
    } else if n == 4 {
        '4'
    } else if n == 5 {
        '5'
    } else if n == 6 {
        '6'
    } else if n == 7 {
        '7'
    } else if n == 8 {
        '8'
    } else if n == 9 {
        '9'
    } else if n == 10 {
        'a'
    } else if n == 11 {
        'b'
    } else if n == 12 {
        'c'
    } else if n == 13 {
        'd'
    } else if n == 14 {
        'e'
    } else {
        'f'
    }
}

/// The value of a hexadecimal digit, or -1 for any other character.
pub open spec fn hex_val(c: char) -> int {
    if c == '0' {
        0
    } else if c == '1' {
        1
    } else if c == '2' {
        2
    } else if c == '3' {
        3
    } else if c == '4' {
        4
    } else if c == '5' {
        5
    } else if c == '6' {
        6
    } else if c == '7' {
        7
    } else if c == '8' {
        8
    } else if c == '9' {
        9
    } else if c == 'a' || c == 'A' {
        10
    } else if c == 'b' || c == 'B' {
        11
    } else if c == 'c' || c == 'C' {
        12
    } else if c == 'd' || c == 'D' {
        13
    } else if c == 'e' || c == 'E' {
        14
    } else if c == 'f' || c == 'F' {
        15
    } else {
        -1
    }
}

/// How one character stands inside a rendered string literal.
pub open spec fn esc_char(c: char) -> Seq<char> {
    if c == '"' {
        seq!['\\', '"']
    } else if c == '\\' {
        seq!['\\', '\\']
    } else if c == '\u{8}' {
        seq!['\\', 'b']
    } else if c == '\u{c}' {
        seq!['\\', 'f']
    } else if c == '\n' {
        seq!['\\', 'n']
    } else if c == '\r' {
        seq!['\\', 'r']
    } else if c == '\t' {
        seq!['\\', 't']
    } else if (c as u32) < 0x20 {
        seq!['\\', 'u', '0', '0', hex_digit((c as u32) as int / 16), hex_digit(
            (c as u32) as int % 16,
        )]
    } else {
        seq![c]
    }
}

/// A whole character sequence as it stands inside a rendered string literal.
pub open spec fn escape(t: Seq<char>) -> Seq<char>
    decreases t.len(),
{
    if t.len() == 0 {
        Seq::empty()
    } else {
        escape(t.drop_last()) + esc_char(t.last())
    }
}

/// A rendered string literal: quotes around the escaped contents.
pub open spec fn quote(t: Seq<char>) -> Seq<char> {
    seq!['"'] + escape(t) + seq!['"']
}

/// The rendered editor member value: a string literal, or `null` when absent.
pub open spec fn editor_json(e: Option<Seq<char>>) -> Seq<char> {
    match e {
        Option::Some(t) => quote(t),
        Option::None => seq!['n', 'u', 'l', 'l'],
    }
}

/// One rendered binding entry: indentation, key, colon, path.
pub open spec fn entry_json(kv: (Seq<char>, Seq<char>)) -> Seq<char> {
    seq!['\n', ' ', ' ', ' ', ' '] + quote(kv.0) + seq![':', ' '] + quote(kv.1)
}

/// The rendered binding entries, separated by commas.
pub open spec fn entries_json(bs: Seq<(Seq<char>, Seq<char>)>) -> Seq<char>
    decreases bs.len(),
{
    if bs.len() == 0 {
        Seq::empty()
    } else if bs.len() == 1 {
        entry_json(bs[0])
    } else {
        entries_json(bs.drop_last()) + seq![','] + entry_json(bs.last())
    }
}

/// The rendered bindings member value: an object of string entries.
pub open spec fn bindings_json(bs: Seq<(Seq<char>, Seq<char>)>) -> Seq<char> {
    if bs.len() == 0 {
        seq!['{', '}']
    } else {
        seq!['{'] + entries_json(bs) + seq!['\n', ' ', ' ', '}']
    }
}

/// The name of the editor member.
pub open spec fn editor_name() -> Seq<char> {
    seq!['e', 'd', 'i', 't', 'o', 'r']
}

/// The name of the bindings member.
pub open spec fn bindings_name() -> Seq<char> {
    seq!['b', 'i', 'n', 'd', 'i', 'n', 'g', 's']
}

/// The rendered document, pretty-printed with two-space indentation.
pub open spec fn json_of(c: ConfigView) -> Seq<char> {
    seq!['{', '\n', ' ', ' ', '"', 'e', 'd', 'i', 't', 'o', 'r', '"', ':', ' '] + editor_json(
        c.editor,
    ) + seq![',', '\n', ' ', ' ', '"', 'b', 'i', 'n', 'd', 'i', 'n', 'g', 's', '"', ':', ' ']
        + bindings_json(c.bindings) + seq!['\n', '}']
}

/// The first index at or after `i` that does not hold whitespace.
pub open spec fn skip_ws_s(s: Seq<char>, i: int) -> int
    decreases s.len() - i,
        when 0 <= i <= s.len()
{
    if i < s.len() && is_ws(s[i]) {
        skip_ws_s(s, i + 1)
    } else {
        i
    }
}

/// The contents of a string literal read from the opening quote at `i`
/// (exclusive) to its closing quote, appended to `acc`, with the index just
/// past the closing quote; `None` when the text is not a string literal.
pub open spec fn str_body(s: Seq<char>, i: int, acc: Seq<char>) -> Option<(Seq<char>, int)>
    decreases s.len() - i,
        when 0 <= i <= s.len()
{
    if i >= s.len() {
        Option::None
    } else if s[i] == '"' {
        Option::Some((acc, i + 1))
    } else if s[i] == '\\' {
        if i + 2 <= s.len() {
            let e = s[i + 1];
            if e == '"' {
                str_body(s, i + 2, acc.push('"'))
            } else if e == '\\' {
                str_body(s, i + 2, acc.push('\\'))
            } else if e == '/' {
                str_body(s, i + 2, acc.push('/'))
            } else if e == 'b' {
                str_body(s, i + 2, acc.push('\u{8}'))
            } else if e == 'f' {
                str_body(s, i + 2, acc.push('\u{c}'))
            } else if e == 'n' {
                str_body(s, i + 2, acc.push('\n'))
            } else if e == 'r' {
                str_body(s, i + 2, acc.push('\r'))
            } else if e == 't' {
                str_body(s, i + 2, acc.push('\t'))
            } else if e == 'u' {
                if i + 6 <= s.len() && s[i + 2] == '0' && s[i + 3] == '0' && hex_val(s[i + 4]) >= 0
                    && hex_val(s[i + 5]) >= 0 {
                    str_body(
                        s,
                        i + 6,
                        acc.push((((hex_val(s[i + 4]) * 16 + hex_val(s[i + 5])) as u8) as char)),
                    )
                } else {
                    Option::None
                }
            } else {
                Option::None
            }
        } else {
            Option::None
        }
    } else if (s[i] as u32) < 0x20 {
        Option::None
    } else {
        str_body(s, i + 1, acc.push(s[i]))
    }
}

/// A string literal read from the quote at `i`.
pub open spec fn parse_str_s(s: Seq<char>, i: int) -> Option<(Seq<char>, int)> {
    if 0 <= i < s.len() && s[i] == '"' {
        str_body(s, i + 1, Seq::empty())
    } else {
        Option::None
    }
}

/// Whether `lit` stands in `s` at index `i`.
pub open spec fn lit_at(s: Seq<char>, i: int, lit: Seq<char>) -> bool {
    0 <= i && i + lit.len() <= s.len() && s.subrange(i, i + lit.len()) == lit
}

/// The literal `null`.
pub open spec fn null_lit() -> Seq<char> {
    seq!['n', 'u', 'l', 'l']
}

/// Skipping whitespace stays within the text and never moves backward.
pub proof fn lemma_skip_ws_bounds(s: Seq<char>, i: int)
    requires
        0 <= i <= s.len(),
    ensures
        i <= skip_ws_s(s, i) <= s.len(),
    decreases s.len() - i,
{
    if i < s.len() && is_ws(s[i]) {
        lemma_skip_ws_bounds(s, i + 1);
    }
}

/// A string literal body ends after the index it started at and within the text.
pub proof fn lemma_str_body_bounds(s: Seq<char>, i: int, acc: Seq<char>)
    requires
        0 <= i <= s.len(),
    ensures
        str_body(s, i, acc) is Some ==> i < str_body(s, i, acc)->Some_0.1 <= s.len(),
    decreases s.len() - i,
{
    if i >= s.len() {
    } else if s[i] == '"' {
    } else if s[i] == '\\' {
        if i + 2 <= s.len() {
            let e = s[i + 1];
            if e == '"' {
                lemma_str_body_bounds(s, i + 2, acc.push('"'));
            } else if e == '\\' {
                lemma_str_body_bounds(s, i + 2, acc.push('\\'));
            } else if e == '/' {
                lemma_str_body_bounds(s, i + 2, acc.push('/'));
            } else if e == 'b' {
                lemma_str_body_bounds(s, i + 2, acc.push('\u{8}'));
            } else if e == 'f' {
                lemma_str_body_bounds(s, i + 2, acc.push('\u{c}'));
            } else if e == 'n' {
                lemma_str_body_bounds(s, i + 2, acc.push('\n'));
            } else if e == 'r' {
                lemma_str_body_bounds(s, i + 2, acc.push('\r'));
            } else if e == 't' {
                lemma_str_body_bounds(s, i + 2, acc.push('\t'));
            } else if e == 'u' {
                if i + 6 <= s.len() && s[i + 2] == '0' && s[i + 3] == '0' && hex_val(s[i + 4]) >= 0
                    && hex_val(s[i + 5]) >= 0 {
                    lemma_str_body_bounds(
                        s,
                        i + 6,
                        acc.push((((hex_val(s[i + 4]) * 16 + hex_val(s[i + 5])) as u8) as char)),
                    );
                }
            }
        }
    } else if (s[i] as u32) < 0x20 {
    } else {
        lemma_str_body_bounds(s, i + 1, acc.push(s[i]));
    }
}

/// A parsed string literal ends at least two characters after its quote.
pub proof fn lemma_parse_str_bounds(s: Seq<char>, i: int)
    requires
        0 <= i <= s.len(),
    ensures
        parse_str_s(s, i) is Some ==> i + 2 <= parse_str_s(s, i)->Some_0.1 <= s.len(),
{
    if 0 <= i < s.len() && s[i] == '"' {
        lemma_str_body_bounds(s, i + 1, Seq::empty());
    }
}

/// The entries of a bindings object, read from index `i` (at or before the
/// first key, whitespace allowed) to the closing brace; later entries for a
/// repeated key overwrite earlier ones.
pub open spec fn entries_s(
    s: Seq<char>,
    i: int,
    acc: Seq<(Seq<char>, Seq<char>)>,
) -> Option<(Seq<(Seq<char>, Seq<char>)>, int)>
    decreases s.len() - i,
        when 0 <= i <= s.len()
        via entries_s_dec
{
    let j = skip_ws_s(s, i);
    match parse_str_s(s, j) {
        Option::None => Option::None,
        Option::Some((k, a)) => {
            let b = skip_ws_s(s, a);
            if b < s.len() && s[b] == ':' {
                match parse_str_s(s, skip_ws_s(s, b + 1)) {
                    Option::None => Option::None,
                    Option::Some((v, d)) => {
                        let acc2 = bind_entries(acc, k, v);
                        let e = skip_ws_s(s, d);
                        if e < s.len() && s[e] == '}' {
                            Option::Some((acc2, e + 1))
                        } else if e < s.len() && s[e] == ',' {
                            entries_s(s, e + 1, acc2)
                        } else {
                            Option::None
                        }
                    },
                }
            } else {
                Option::None
            }
        },
    }
}

#[via_fn]
proof fn entries_s_dec(s: Seq<char>, i: int, acc: Seq<(Seq<char>, Seq<char>)>) {
    lemma_skip_ws_bounds(s, i);
    let j = skip_ws_s(s, i);
    lemma_parse_str_bounds(s, j);
    if parse_str_s(s, j) is Some {
        let a = parse_str_s(s, j)->Some_0.1;
        lemma_skip_ws_bounds(s, a);
        let b = skip_ws_s(s, a);
        if b < s.len() && s[b] == ':' {
            lemma_skip_ws_bounds(s, b + 1);
            let c0 = skip_ws_s(s, b + 1);
            lemma_parse_str_bounds(s, c0);
            if parse_str_s(s, c0) is Some {
                let d = parse_str_s(s, c0)->Some_0.1;
                lemma_skip_ws_bounds(s, d);
            }
        }
    }
}

/// The editor member value: a string literal or `null`.
pub open spec fn parse_editor_val(s: Seq<char>, i: int) -> Option<(Option<Seq<char>>, int)> {
    if lit_at(s, i, null_lit()) {
        Option::Some((Option::None, i + 4))
    } else {
        match parse_str_s(s, i) {
            Option::Some((t, j)) => Option::Some((Option::Some(t), j)),
            Option::None => Option::None,
        }
    }
}

/// The bindings member value: an object of string entries, or `null`.
pub open spec fn parse_bindings_val(s: Seq<char>, i: int) -> Option<(
    Seq<(Seq<char>, Seq<char>)>,
    int,
)> {
    if lit_at(s, i, null_lit()) {
        Option::Some((Seq::empty(), i + 4))
    } else if 0 <= i < s.len() && s[i] == '{' {
        let j = skip_ws_s(s, i + 1);
        if j < s.len() && s[j] == '}' {
            Option::Some((Seq::empty(), j + 1))
        } else {
            entries_s(s, i + 1, Seq::empty())
        }
    } else {
        Option::None
    }
}

/// How many of the two members have not been read yet.
pub open spec fn fields_left(
    ed: Option<Option<Seq<char>>>,
    bn: Option<Seq<(Seq<char>, Seq<char>)>>,
) -> int {
    (if ed is None {
        1int
    } else {
        0int
    }) + (if bn is None {
        1int
    } else {
        0int
    })
}

/// The members of the document object, read from a member name at `i`; each
/// member may appear at most once, and no other member name is accepted.
/// `ed` and `bn` hold the members read so far.
pub open spec fn parse_members(
    s: Seq<char>,
    i: int,
    ed: Option<Option<Seq<char>>>,
    bn: Option<Seq<(Seq<char>, Seq<char>)>>,
) -> Option<(ConfigView, int)>
    decreases fields_left(ed, bn), 0int,
{
    match parse_str_s(s, i) {
        Option::None => Option::None,
        Option::Some((name, a)) => {
            let b = skip_ws_s(s, a);
            if b < s.len() && s[b] == ':' {
                let c0 = skip_ws_s(s, b + 1);
                if name == editor_name() {
                    if ed is Some {
                        Option::None
                    } else {
                        match parse_editor_val(s, c0) {
                            Option::None => Option::None,
                            Option::Some((ev, d)) => parse_members_tail(
                                s,
                                d,
                                Option::Some(ev),
                                bn,
                            ),
                        }
                    }
                } else if name == bindings_name() {
                    if bn is Some {
                        Option::None
                    } else {
                        match parse_bindings_val(s, c0) {
                            Option::None => Option::None,
                            Option::Some((bv, d)) => parse_members_tail(
                                s,
                                d,
                                ed,
                                Option::Some(bv),
                            ),
                        }
                    }
                } else {
                    Option::None
                }
            } else {
                Option::None
            }
        },
    }
}

/// After a member's value: either the closing brace ends the object, or a
/// comma introduces the next member.
pub open spec fn parse_members_tail(
    s: Seq<char>,
    d: int,
    ed: Option<Option<Seq<char>>>,
    bn: Option<Seq<(Seq<char>, Seq<char>)>>,
) -> Option<(ConfigView, int)>
    decreases fields_left(ed, bn), 1int,
{
    let e = skip_ws_s(s, d);
    if e < s.len() && s[e] == '}' {
        Option::Some(
            (
                ConfigView {
                    editor: match ed {
                        Option::Some(x) => x,
                        Option::None => Option::None,
                    },
                    bindings: match bn {
                        Option::Some(x) => x,
                        Option::None => Seq::empty(),
                    },
                },
                e + 1,
            ),
        )
    } else if e < s.len() && s[e] == ',' {
        parse_members(s, skip_ws_s(s, e + 1), ed, bn)
    } else {
        Option::None
    }
}

/// The whole document: one object of the configuration shape, with nothing
/// but whitespace before or after it.
pub open spec fn parse_doc_s(s: Seq<char>) -> Option<ConfigView> {
    let i0 = skip_ws_s(s, 0);
    if i0 < s.len() && s[i0] == '{' {
        let i1 = skip_ws_s(s, i0 + 1);
        if i1 < s.len() && s[i1] == '}' {
            if skip_ws_s(s, i1 + 1) == s.len() {
                Option::Some(ConfigView::empty())
            } else {
                Option::None
            }
        } else {
            match parse_members(s, i1, Option::None, Option::None) {
                Option::None => Option::None,
                Option::Some((cv, j)) => {
                    if 0 <= j <= s.len() && skip_ws_s(s, j) == s.len() {
                        Option::Some(cv)
                    } else {
                        Option::None
                    }
                },
            }
        }
    } else {
        Option::None
    }
}

/// Relies on String::push: appends exactly the one character to the string.
#[verifier::external_body]
fn push_char(s: &mut String, c: char)
    ensures
        final(s)@ == old(s)@ + seq![c],
{
    s.push(c)
}

/// The lower-case hexadecimal digit for a value below 16.
fn hex_digit_char(n: u8) -> (r: char)
    requires
        n < 16,
    ensures
        r == hex_digit(n as int),
{
    if n == 0 {
        '0'
    } else if n == 1 {
        '1'
    } else if n == 2 {
        '2'
    } else if n == 3 {
        '3'
    } else if n == 4 {
        '4'
    } else if n == 5 {
        '5'
    } else if n == 6 {
        '6'
    } else if n == 7 {
        '7'
    } else if n == 8 {
        '8'
    } else if n == 9 {
        '9'
    } else if n == 10 {
        'a'
    } else if n == 11 {
        'b'
    } else if n == 12 {
        'c'
    } else if n == 13 {
        'd'
    } else if n == 14 {
        'e'
    } else {
        'f'
    }
}

/// Append the escaped form of `t` to `out`.
fn append_escaped(out: &mut String, t: &String)
    ensures
        final(out)@ == old(out)@ + escape(t@),
{
    let n = t.as_str().unicode_len();
    let mut i: usize = 0;
    while i < n
        invariant
            i <= n,
            n == t@.len(),
            out@ == old(out)@ + escape(t@.subrange(0, i as int)),
        decreases n - i,
    {
        let c = t.as_str().get_char(i);
        if c == '"' {
            push_char(out, '\\');
            push_char(out, '"');
        } else if c == '\\' {
            push_char(out, '\\');
            push_char(out, '\\');
        } else if c == '\u{8}' {
            push_char(out, '\\');
            push_char(out, 'b');
        } else if c == '\u{c}' {
            push_char(out, '\\');
            push_char(out, 'f');
        } else if c == '\n' {
            push_char(out, '\\');
            push_char(out, 'n');
        } else if c == '\r' {
            push_char(out, '\\');
            push_char(out, 'r');
        } else if c == '\t' {
            push_char(out, '\\');
            push_char(out, 't');
        } else if (c as u32) < 0x20 {
            push_char(out, '\\');
            push_char(out, 'u');
            push_char(out, '0');
            push_char(out, '0');
            let v = c as u32;
            push_char(out, hex_digit_char((v / 16) as u8));
            push_char(out, hex_digit_char((v % 16) as u8));
        } else {
            push_char(out, c);
        }
        proof {
            let pre = t@.subrange(0, i as int);
            let post = t@.subrange(0, i + 1 as int);
            assert(post.drop_last() =~= pre);
            assert(post.last() == t@[i as int]);
            assert(escape(post) == escape(pre) + esc_char(t@[i as int]));
            assert(out@ =~= old(out)@ + escape(post));
        }
        i += 1;
    }
    proof {
        assert(t@.subrange(0, n as int) =~= t@);
    }
}

/// Append the rendered string literal for `t` to `out`.
fn append_quoted(out: &mut String, t: &String)
    ensures
        final(out)@ == old(out)@ + quote(t@),
{
    push_char(out, '"');
    append_escaped(out, t);
    push_char(out, '"');
    proof {
        assert(out@ =~= old(out)@ + quote(t@));
    }
}

/// A subrange equal to a concatenation splits into subranges equal to the
/// parts.
proof fn lemma_split_at(s: Seq<char>, i: int, a: Seq<char>, b: Seq<char>)
    requires
        0 <= i,
        i + a.len() + b.len() <= s.len(),
        s.subrange(i, i + a.len() + b.len()) == a + b,
    ensures
        s.subrange(i, i + a.len()) == a,
        s.subrange(i + a.len(), i + a.len() + b.len()) == b,
{
    let al = a.len() as int;
    let bl = b.len() as int;
    assert forall|k: int| 0 <= k < al implies s.subrange(i, i + al)[k] == a[k] by {
        assert(s.subrange(i, i + al + bl)[k] == s[i + k]);
        assert(s.subrange(i, i + al)[k] == s[i + k]);
    }
    assert(s.subrange(i, i + al) =~= a);
    assert forall|k: int| 0 <= k < bl implies s.subrange(i + al, i + al + bl)[k] == b[k] by {
        assert(s.subrange(i, i + al + bl)[al + k] == s[i + al + k]);
        assert(s.subrange(i + al, i + al + bl)[k] == s[i + al + k]);
    }
    assert(s.subrange(i + al, i + al + bl) =~= b);
}

/// Skipping whitespace walks over a known run of whitespace and stops at the
/// first character after it that is none.
proof fn lemma_skip_ws_past(s: Seq<char>, i: int, k: int)
    requires
        0 <= i,
        0 <= k,
        i + k <= s.len(),
        forall|t: int| i <= t < i + k ==> is_ws(s[t]),
        i + k == s.len() || !is_ws(s[i + k]),
    ensures
        skip_ws_s(s, i) == i + k,
    decreases k,
{
    if k > 0 {
        lemma_skip_ws_past(s, i + 1, k - 1);
    }
}

/// Reading back a rendered hexadecimal digit gives the value back.
proof fn lemma_hex_digit_inverse(n: int)
    requires
        0 <= n < 16,
    ensures
        hex_val(hex_digit(n)) == n,
{
}

/// A character below 0x100 survives the round trip through its code point.
proof fn lemma_low_char_cast(c: char)
    requires
        (c as u32) < 0x100,
    ensures
        (((c as u32) as u8) as char) == c,
{
}

/// `escape` unfolded at the front instead of the back.
proof fn lemma_escape_front(t: Seq<char>)
    requires
        t.len() > 0,
    ensures
        escape(t) == esc_char(t[0]) + escape(t.skip(1)),
    decreases t.len(),
{
    if t.len() == 1 {
        assert(t.drop_last() =~= Seq::<char>::empty());
        assert(t.skip(1) =~= Seq::<char>::empty());
        assert(t.last() == t[0]);
        assert(escape(t) =~= esc_char(t[0]) + escape(t.skip(1)));
    } else {
        let dl = t.drop_last();
        lemma_escape_front(dl);
        assert(t.skip(1).drop_last() =~= dl.skip(1));
        assert(t.skip(1).last() == t.last());
        assert(escape(t.skip(1)) == escape(dl.skip(1)) + esc_char(t.last()));
        assert(dl[0] == t[0]);
        assert(escape(t) == (esc_char(t[0]) + escape(dl.skip(1))) + esc_char(t.last()));
        assert((esc_char(t[0]) + escape(dl.skip(1))) + esc_char(t.last()) =~= esc_char(t[0]) + (
        escape(dl.skip(1)) + esc_char(t.last())));
    }
}

/// A character that stands for itself inside a rendered string literal.
pub open spec fn plain_char(c: char) -> bool {
    c != '"' && c != '\\' && (c as u32) >= 0x20
}

/// A sequence of plain characters is rendered unchanged.
proof fn lemma_escape_plain(t: Seq<char>)
    requires
        forall|i: int| 0 <= i < t.len() ==> plain_char(#[trigger] t[i]),
    ensures
        escape(t) == t,
    decreases t.len(),
{
    if t.len() > 0 {
        lemma_escape_plain(t.drop_last());
        assert(plain_char(t[t.len() - 1]));
        assert(esc_char(t.last()) =~= seq![t.last()]);
        assert(escape(t) =~= t);
    }
}

/// Reading a string literal body from the rendered escape of `t` followed by
/// the closing quote recovers exactly `t`.
proof fn lemma_str_body_unescape(s: Seq<char>, i: int, acc: Seq<char>, t: Seq<char>)
    requires
        0 <= i,
        i + escape(t).len() + 1 <= s.len(),
        s.subrange(i, i + escape(t).len() + 1) == escape(t) + seq!['"'],
    ensures
        str_body(s, i, acc) == Option::Some((acc + t, i + escape(t).len() + 1)),
    decreases t.len(),
{
    let m = escape(t).len() as int;
    if t.len() == 0 {
        assert(s.subrange(i, i + 1)[0] == s[i]);
        assert((escape(t) + seq!['"'])[0] == '"');
        assert(s[i] == '"');
        assert(acc + t =~= acc);
    } else {
        let c = t[0];
        let t1 = t.skip(1);
        lemma_escape_front(t);
        let ec = esc_char(c);
        let el = ec.len() as int;
        let rest = escape(t1) + seq!['"'];
        assert(escape(t) + seq!['"'] =~= ec + rest);
        lemma_split_at(s, i, ec, rest);
        assert forall|q: int| 0 <= q < el implies s[i + q] == ec[q] by {
            assert(s.subrange(i, i + el)[q] == s[i + q]);
        }
        assert(s.subrange(i + el, i + el + rest.len()) == rest);
        assert(i + el + rest.len() == i + m + 1);
        if c == '"' {
            assert(s[i] == '\\' && s[i + 1] == '"');
            lemma_str_body_unescape(s, i + 2, acc.push('"'), t1);
            assert(acc.push(c) + t1 =~= acc + t);
        } else if c == '\\' {
            assert(s[i] == '\\' && s[i + 1] == '\\');
            lemma_str_body_unescape(s, i + 2, acc.push('\\'), t1);
            assert(acc.push(c) + t1 =~= acc + t);
        } else if c == '\u{8}' {
            assert(s[i] == '\\' && s[i + 1] == 'b');
            lemma_str_body_unescape(s, i + 2, acc.push('\u{8}'), t1);
            assert(acc.push(c) + t1 =~= acc + t);
        } else if c == '\u{c}' {
            assert(s[i] == '\\' && s[i + 1] == 'f');
            lemma_str_body_unescape(s, i + 2, acc.push('\u{c}'), t1);
            assert(acc.push(c) + t1 =~= acc + t);
        } else if c == '\n' {
            assert(s[i] == '\\' && s[i + 1] == 'n');
            lemma_str_body_unescape(s, i + 2, acc.push('\n'), t1);
            assert(acc.push(c) + t1 =~= acc + t);
        } else if c == '\r' {
            assert(s[i] == '\\' && s[i + 1] == 'r');
            lemma_str_body_unescape(s, i + 2, acc.push('\r'), t1);
            assert(acc.push(c) + t1 =~= acc + t);
        } else if c == '\t' {
            assert(s[i] == '\\' && s[i + 1] == 't');
            lemma_str_body_unescape(s, i + 2, acc.push('\t'), t1);
            assert(acc.push(c) + t1 =~= acc + t);
        } else if (c as u32) < 0x20 {
            let v = (c as u32) as int;
            assert(s[i] == '\\' && s[i + 1] == 'u' && s[i + 2] == '0' && s[i + 3] == '0');
            assert(s[i + 4] == hex_digit(v / 16));
            assert(s[i + 5] == hex_digit(v % 16));
            lemma_hex_digit_inverse(v / 16);
            lemma_hex_digit_inverse(v % 16);
            assert(hex_val(s[i + 4]) == v / 16);
            assert(hex_val(s[i + 5]) == v % 16);
            vstd::arithmetic::div_mod::lemma_fundamental_div_mod(v, 16);
            assert(hex_val(s[i + 4]) * 16 + hex_val(s[i + 5]) == v);
            let b8 = (hex_val(s[i + 4]) * 16 + hex_val(s[i + 5])) as u8;
            assert(b8 as int == v);
            assert(b8 == (c as u32) as u8);
            lemma_low_char_cast(c);
            assert((b8 as char) == c);
            lemma_str_body_unescape(s, i + 6, acc.push(c), t1);
            assert(acc.push(c) + t1 =~= acc + t);
        } else {
            assert(ec =~= seq![c]);
            assert(ec[0] == c);
            assert(s[i + 0] == ec[0]);
            assert(s[i] == c);
            assert(s[i] != '"' && s[i] != '\\' && (s[i] as u32) >= 0x20);
            lemma_str_body_unescape(s, i + 1, acc.push(c), t1);
            assert(acc.push(c) + t1 =~= acc + t);
        }
    }
}

/// The characters of a subrange, one by one.
proof fn lemma_chars_at(s: Seq<char>, i: int, a: Seq<char>)
    requires
        0 <= i,
        i + a.len() <= s.len(),
        s.subrange(i, i + a.len()) == a,
    ensures
        forall|q: int| 0 <= q < a.len() ==> s[i + q] == #[trigger] a[q],
{
    assert forall|q: int| 0 <= q < a.len() implies s[i + q] == #[trigger] a[q] by {
        assert(s.subrange(i, i + a.len())[q] == s[i + q]);
    }
}

/// Reading a string literal from the rendered quotation of `t` recovers `t`.
proof fn lemma_parse_quote(s: Seq<char>, i: int, t: Seq<char>)
    requires
        0 <= i,
        i + quote(t).len() <= s.len(),
        s.subrange(i, i + quote(t).len()) == quote(t),
    ensures
        parse_str_s(s, i) == Option::Some((t, i + quote(t).len())),
{
    let m = escape(t).len() as int;
    assert(quote(t).len() == m + 2);
    let rest = escape(t) + seq!['"'];
    assert(quote(t) =~= seq!['"'] + rest);
    lemma_split_at(s, i, seq!['"'], rest);
    assert(s.subrange(i, i + 1)[0] == s[i]);
    assert(s[i] == '"');
    lemma_str_body_unescape(s, i + 1, Seq::empty(), t);
    assert(Seq::empty() + t =~= t);
}

/// `entries_json` unfolded at the front instead of the back.
proof fn lemma_entries_json_front(bs: Seq<(Seq<char>, Seq<char>)>)
    requires
        bs.len() > 0,
    ensures
        bs.len() == 1 ==> entries_json(bs) == entry_json(bs[0]),
        bs.len() > 1 ==> entries_json(bs) == entry_json(bs[0]) + (seq![','] + entries_json(
            bs.skip(1),
        )),
    decreases bs.len(),
{
    if bs.len() == 1 {
    } else if bs.len() == 2 {
        let dl = bs.drop_last();
        assert(dl.len() == 1);
        assert(dl[0] == bs[0]);
        assert(entries_json(dl) == entry_json(bs[0]));
        assert(bs.skip(1).len() == 1);
        assert(bs.skip(1)[0] == bs[1]);
        assert(entries_json(bs.skip(1)) == entry_json(bs[1]));
        assert(bs.last() == bs[1]);
        assert(entries_json(bs) == entry_json(bs[0]) + seq![','] + entry_json(bs[1]));
        assert(entry_json(bs[0]) + seq![','] + entry_json(bs[1]) =~= entry_json(bs[0]) + (
        seq![','] + entry_json(bs[1])));
    } else {
        let dl = bs.drop_last();
        lemma_entries_json_front(dl);
        assert(dl[0] == bs[0]);
        assert(entries_json(bs) == entries_json(dl) + seq![','] + entry_json(bs.last()));
        assert(entries_json(dl) == entry_json(bs[0]) + (seq![','] + entries_json(dl.skip(1))));
        let s1 = bs.skip(1);
        assert(s1.len() > 1);
        assert(s1.drop_last() =~= dl.skip(1));
        assert(s1.last() == bs.last());
        assert(entries_json(s1) == entries_json(dl.skip(1)) + seq![','] + entry_json(bs.last()));
        assert((entry_json(bs[0]) + (seq![','] + entries_json(dl.skip(1)))) + seq![',']
            + entry_json(bs.last()) =~= entry_json(bs[0]) + (seq![','] + (entries_json(
            dl.skip(1),
        ) + seq![','] + entry_json(bs.last()))));
    }
}

/// Reading entries from the rendered form of `bs`, followed by the closing
/// of the bindings object, appends exactly `bs` to the entries read so far.
#[verifier::rlimit(60)]
proof fn lemma_entries_unparse(
    s: Seq<char>,
    i: int,
    acc: Seq<(Seq<char>, Seq<char>)>,
    bs: Seq<(Seq<char>, Seq<char>)>,
)
    requires
        0 <= i,
        bs.len() > 0,
        unique_keys(acc + bs),
        i + entries_json(bs).len() + 4 <= s.len(),
        s.subrange(i, i + entries_json(bs).len() + 4) == entries_json(bs) + seq![
            '\n', ' ', ' ', '}',
        ],
    ensures
        entries_s(s, i, acc) == Option::Some((acc + bs, i + entries_json(bs).len() + 4)),
        skip_ws_s(s, i) == i + 5,
        s[i + 5] == '"',
    decreases bs.len(),
{
    let close4 = seq!['\n', ' ', ' ', '}'];
    let e_all = entries_json(bs).len() as int;
    let k0 = bs[0].0;
    let v0 = bs[0].1;
    let ind5 = seq!['\n', ' ', ' ', ' ', ' '];
    let qk = quote(k0);
    let qv = quote(v0);
    let col2 = seq![':', ' '];
    lemma_entries_json_front(bs);
    let after_entry: Seq<char> = if bs.len() == 1 {
        close4
    } else {
        (seq![','] + entries_json(bs.skip(1))) + close4
    };
    assert(entry_json(bs[0]) =~= ind5 + (qk + (col2 + qv))) by {
        assert(entry_json(bs[0]) == ind5 + quote(k0) + col2 + quote(v0));
    }
    assert(entries_json(bs) + close4 =~= (ind5 + (qk + (col2 + qv))) + after_entry) by {
        if bs.len() == 1 {
            assert(entries_json(bs) == entry_json(bs[0]));
        } else {
            assert(entries_json(bs) == entry_json(bs[0]) + (seq![','] + entries_json(bs.skip(1))));
        }
    }
    assert(entries_json(bs) + close4 =~= ind5 + ((qk + (col2 + (qv + after_entry)))));
    lemma_split_at(s, i, ind5, qk + (col2 + (qv + after_entry)));
    lemma_chars_at(s, i, ind5);
    let iq = i + 5;
    lemma_split_at(s, iq, qk, col2 + (qv + after_entry));
    let a = iq + qk.len() as int;
    lemma_split_at(s, a, col2, qv + after_entry);
    lemma_chars_at(s, a, col2);
    let c0 = a + 2;
    lemma_split_at(s, c0, qv, after_entry);
    let d = c0 + qv.len() as int;
    // skip the entry's leading indentation
    assert(ind5[0] == '\n' && ind5[1] == ' ' && ind5[2] == ' ' && ind5[3] == ' ' && ind5[4]
        == ' ');
    assert(forall|t: int| i <= t < i + 5 ==> is_ws(s[t]));
    assert(s.subrange(iq, iq + qk.len())[0] == s[iq]);
    assert(s[iq] == '"');
    lemma_skip_ws_past(s, i, 5);
    assert(skip_ws_s(s, i) == iq);
    // the key
    lemma_parse_quote(s, iq, k0);
    assert(parse_str_s(s, iq) == Option::Some((k0, a)));
    // the colon
    assert(col2[0] == ':' && col2[1] == ' ');
    assert(s[a + 0] == ':');
    lemma_skip_ws_past(s, a, 0);
    assert(skip_ws_s(s, a) == a);
    // one space, then the value
    assert(s[a + 1] == ' ');
    assert(s.subrange(c0, c0 + qv.len())[0] == s[c0]);
    assert(s[c0] == '"');
    lemma_skip_ws_past(s, a + 1, 1);
    assert(skip_ws_s(s, a + 1) == c0);
    lemma_parse_quote(s, c0, v0);
    assert(parse_str_s(s, c0) == Option::Some((v0, d)));
    // the new entry's key was not bound yet
    assert((acc + bs)[acc.len() as int] == bs[0]);
    assert forall|j: int| 0 <= j < acc.len() implies acc[j].0 != k0 by {
        assert((acc + bs)[j] == acc[j]);
    }
    crate::config::lemma_find_key_none(acc, k0);
    let acc2 = bind_entries(acc, k0, v0);
    assert(acc2 == acc.push((k0, v0)));
    lemma_chars_at(s, d, after_entry);
    if bs.len() == 1 {
        // the closing of the object
        assert(after_entry[0] == '\n' && after_entry[1] == ' ' && after_entry[2] == ' '
            && after_entry[3] == '}');
        assert(forall|t: int| d <= t < d + 3 ==> is_ws(s[t]));
        assert(!is_ws(s[d + 3]));
        lemma_skip_ws_past(s, d, 3);
        assert(skip_ws_s(s, d) == d + 3);
        assert(s[d + 3] == '}');
        assert(acc2 =~= acc + bs);
        assert(d + 4 == i + e_all + 4);
        assert(entries_s(s, i, acc) == Option::Some((acc2, d + 4)));
    } else {
        // a comma, then the remaining entries
        let bs1 = bs.skip(1);
        assert(after_entry =~= seq![','] + (entries_json(bs1) + close4));
        assert(after_entry[0] == ',');
        assert(s[d + 0] == ',');
        lemma_skip_ws_past(s, d, 0);
        assert(skip_ws_s(s, d) == d);
        lemma_split_at(s, d, seq![','], entries_json(bs1) + close4);
        assert(acc2 + bs1 =~= acc + bs);
        assert(unique_keys(acc2 + bs1));
        lemma_entries_unparse(s, d + 1, acc2, bs1);
        assert(d + 1 + entries_json(bs1).len() + 4 == i + e_all + 4);
        assert(entries_s(s, d + 1, acc2) == Option::Some((acc + bs, i + e_all + 4)));
        assert(entries_s(s, i, acc) == Option::Some((acc + bs, i + e_all + 4)));
    }
}

/// The rendered member names, in quoted form, and their distinctness.
proof fn lemma_member_names()
    ensures
        quote(editor_name()) == seq!['"', 'e', 'd', 'i', 't', 'o', 'r', '"'],
        quote(bindings_name()) == seq!['"', 'b', 'i', 'n', 'd', 'i', 'n', 'g', 's', '"'],
        editor_name() != bindings_name(),
{
    assert forall|q: int| 0 <= q < editor_name().len() implies plain_char(
        #[trigger] editor_name()[q],
    ) by {
        assert(plain_char('e') && plain_char('d') && plain_char('i') && plain_char('t')
            && plain_char('o') && plain_char('r'));
    }
    lemma_escape_plain(editor_name());
    assert(quote(editor_name()) =~= seq!['"', 'e', 'd', 'i', 't', 'o', 'r', '"']);
    assert forall|q: int| 0 <= q < bindings_name().len() implies plain_char(
        #[trigger] bindings_name()[q],
    ) by {
        assert(plain_char('b') && plain_char('i') && plain_char('n') && plain_char('d')
            && plain_char('g') && plain_char('s'));
    }
    lemma_escape_plain(bindings_name());
    assert(quote(bindings_name()) =~= seq!['"', 'b', 'i', 'n', 'd', 'i', 'n', 'g', 's', '"']);
    assert(editor_name().len() == 6 && bindings_name().len() == 8);
}

/// Reading the editor member's value from its rendered form recovers it.
proof fn lemma_editor_val_at(s: Seq<char>, i: int, e: Option<Seq<char>>)
    requires
        0 <= i,
        i + editor_json(e).len() <= s.len(),
        s.subrange(i, i + editor_json(e).len() as int) == editor_json(e),
    ensures
        parse_editor_val(s, i) == Option::Some((e, i + editor_json(e).len())),
        s[i] == '"' || s[i] == 'n',
{
    let ej = editor_json(e);
    assert(s.subrange(i, i + ej.len() as int)[0] == s[i]);
    match e {
        Option::Some(t) => {
            assert(ej == quote(t));
            assert(quote(t)[0] == '"');
            assert(s[i] == '"');
            if lit_at(s, i, null_lit()) {
                assert(s.subrange(i, i + 4)[0] == s[i]);
                assert(null_lit()[0] == 'n');
                assert(false);
            }
            lemma_parse_quote(s, i, t);
        },
        Option::None => {
            assert(ej == null_lit());
            assert(null_lit()[0] == 'n');
            assert(s[i] == 'n');
            assert(s.subrange(i, i + null_lit().len() as int) == null_lit());
            assert(lit_at(s, i, null_lit()));
        },
    }
}

/// Reading the bindings member's value from its rendered form recovers it.
proof fn lemma_bindings_val_at(s: Seq<char>, i: int, bs: Seq<(Seq<char>, Seq<char>)>)
    requires
        0 <= i,
        unique_keys(bs),
        i + bindings_json(bs).len() <= s.len(),
        s.subrange(i, i + bindings_json(bs).len() as int) == bindings_json(bs),
    ensures
        parse_bindings_val(s, i) == Option::Some((bs, i + bindings_json(bs).len())),
        s[i] == '{',
{
    let bj = bindings_json(bs);
    let pos8 = i + bj.len() as int;
    assert(s.subrange(i, pos8)[0] == s[i]);
    assert(bj[0] == '{');
    assert(s[i] == '{');
    if lit_at(s, i, null_lit()) {
        assert(s.subrange(i, i + 4)[0] == s[i]);
        assert(null_lit()[0] == 'n');
        assert(false);
    }
    if bs.len() == 0 {
        assert(bj =~= seq!['{', '}']);
        assert(s.subrange(i, pos8)[1] == s[i + 1]);
        assert(s[i + 1] == '}');
        assert(!is_ws('}'));
        lemma_skip_ws_past(s, i + 1, 0);
        assert(skip_ws_s(s, i + 1) == i + 1);
        assert(bs =~= Seq::<(Seq<char>, Seq<char>)>::empty());
    } else {
        let close4 = seq!['\n', ' ', ' ', '}'];
        assert(bj =~= seq!['{'] + (entries_json(bs) + close4));
        lemma_split_at(s, i, seq!['{'], entries_json(bs) + close4);
        assert(Seq::<(Seq<char>, Seq<char>)>::empty() + bs =~= bs);
        lemma_entries_unparse(s, i + 1, Seq::empty(), bs);
        assert(skip_ws_s(s, i + 1) == i + 6);
        assert(s[i + 6] == '"');
        assert(entries_s(s, i + 1, Seq::empty()) == Option::Some((bs, pos8)));
    }
}

/// Where each piece of the rendered document stands.
#[verifier::rlimit(60)]
proof fn lemma_doc_pieces(c: ConfigView)
    ensures
        json_of(c).len() == 32 + editor_json(c.editor).len() + bindings_json(c.bindings).len(),
        json_of(c)[0] == '{' && json_of(c)[1] == '\n' && json_of(c)[2] == ' ' && json_of(c)[3]
            == ' ',
        json_of(c).subrange(4, 12) == quote(editor_name()),
        json_of(c)[12] == ':' && json_of(c)[13] == ' ',
        json_of(c).subrange(14, 14 + editor_json(c.editor).len() as int) == editor_json(c.editor),
        json_of(c)[14 + editor_json(c.editor).len() as int] == ',',
        json_of(c)[15 + editor_json(c.editor).len() as int] == '\n',
        json_of(c)[16 + editor_json(c.editor).len() as int] == ' ',
        json_of(c)[17 + editor_json(c.editor).len() as int] == ' ',
        json_of(c).subrange(
            18 + editor_json(c.editor).len() as int,
            28 + editor_json(c.editor).len() as int,
        ) == quote(bindings_name()),
        json_of(c)[28 + editor_json(c.editor).len() as int] == ':',
        json_of(c)[29 + editor_json(c.editor).len() as int] == ' ',
        json_of(c).subrange(
            30 + editor_json(c.editor).len() as int,
            30 + editor_json(c.editor).len() + bindings_json(c.bindings).len() as int,
        ) == bindings_json(c.bindings),
        json_of(c)[30 + editor_json(c.editor).len() + bindings_json(c.bindings).len() as int] == '\n',
        json_of(c)[31 + editor_json(c.editor).len() + bindings_json(c.bindings).len() as int] == '}',
{
    let s = json_of(c);
    let p4 = seq!['{', '\n', ' ', ' '];
    let q_ed = seq!['"', 'e', 'd', 'i', 't', 'o', 'r', '"'];
    let col2 = seq![':', ' '];
    let ej = editor_json(c.editor);
    let com4 = seq![',', '\n', ' ', ' '];
    let q_bn = seq!['"', 'b', 'i', 'n', 'd', 'i', 'n', 'g', 's', '"'];
    let bj = bindings_json(c.bindings);
    let s2 = seq!['\n', '}'];
    let pos4 = 14 + ej.len() as int;
    let pos5 = pos4 + 4;
    let pos6 = pos5 + 10;
    let pos7 = pos6 + 2;
    let pos8 = pos7 + bj.len() as int;
    lemma_member_names();
    assert(s =~= p4 + (q_ed + (col2 + (ej + (com4 + (q_bn + (col2 + (bj + s2))))))));
    assert(s.subrange(0, s.len() as int) =~= s);
    lemma_split_at(s, 0, p4, q_ed + (col2 + (ej + (com4 + (q_bn + (col2 + (bj + s2)))))));
    lemma_chars_at(s, 0, p4);
    assert(p4[0] == '{' && p4[1] == '\n' && p4[2] == ' ' && p4[3] == ' ');
    lemma_split_at(s, 4, q_ed, col2 + (ej + (com4 + (q_bn + (col2 + (bj + s2))))));
    lemma_split_at(s, 12, col2, ej + (com4 + (q_bn + (col2 + (bj + s2)))));
    lemma_chars_at(s, 12, col2);
    assert(col2[0] == ':' && col2[1] == ' ');
    assert(s[12int] == ':' && s[13int] == ' ');
    lemma_split_at(s, 14, ej, com4 + (q_bn + (col2 + (bj + s2))));
    lemma_split_at(s, pos4, com4, q_bn + (col2 + (bj + s2)));
    lemma_chars_at(s, pos4, com4);
    assert(com4[0] == ',' && com4[1] == '\n' && com4[2] == ' ' && com4[3] == ' ');
    assert(s[pos4] == ',' && s[pos4 + 1] == '\n' && s[pos4 + 2] == ' ' && s[pos4 + 3] == ' ');
    lemma_split_at(s, pos5, q_bn, col2 + (bj + s2));
    lemma_split_at(s, pos6, col2, bj + s2);
    lemma_chars_at(s, pos6, col2);
    assert(s[pos6] == ':' && s[pos6 + 1] == ' ');
    lemma_split_at(s, pos7, bj, s2);
    lemma_chars_at(s, pos8, s2);
    assert(s2[0] == '\n' && s2[1] == '}');
    assert(s[pos8] == '\n' && s[pos8 + 1] == '}');
}

/// Saving a configuration and loading the saved document yields the same
/// configuration: the document grammar inverts the renderer, so no stored
/// value is lost or changed by a save followed by a load.
#[verifier::rlimit(100)]
pub proof fn lemma_save_then_load(c: ConfigView)
    requires
        c.wf(),
    ensures
        parse_doc_s(json_of(c)) == Option::Some(c),
{
    let s = json_of(c);
    let ej = editor_json(c.editor);
    let bj = bindings_json(c.bindings);
    let pos4 = 14 + ej.len() as int;
    let pos5 = pos4 + 4;
    let pos6 = pos5 + 10;
    let pos7 = pos6 + 2;
    let pos8 = pos7 + bj.len() as int;
    let pos9 = pos8 + 2;
    lemma_doc_pieces(c);
    assert(s.len() == pos9);
    lemma_member_names();
    // the opening brace
    assert(!is_ws('{'));
    lemma_skip_ws_past(s, 0, 0);
    assert(skip_ws_s(s, 0) == 0);
    assert(s[0] == '{');
    // whitespace, then the editor member's name
    assert(s.subrange(4, 12)[0] == s[4]);
    assert(s[4] == '"');
    lemma_skip_ws_past(s, 1, 3);
    assert(skip_ws_s(s, 1) == 4);
    assert(s.subrange(4, 12) == quote(editor_name()));
    lemma_parse_quote(s, 4, editor_name());
    assert(parse_str_s(s, 4) == Option::Some((editor_name(), 12int)));
    // colon and value of the editor member
    assert(s[12int] == ':' && s[13int] == ' ');
    lemma_skip_ws_past(s, 12, 0);
    assert(skip_ws_s(s, 12) == 12);
    assert(s.subrange(14, pos4) == ej);
    lemma_editor_val_at(s, 14, c.editor);
    assert(!is_ws('"') && !is_ws('n'));
    lemma_skip_ws_past(s, 13, 1);
    assert(skip_ws_s(s, 13) == 14);
    assert(parse_editor_val(s, 14) == Option::Some((c.editor, pos4)));
    // comma, whitespace, then the bindings member's name
    assert(s[pos4 + 0] == ',' && s[pos4 + 1] == '\n' && s[pos4 + 2] == ' ' && s[pos4 + 3] == ' ');
    lemma_skip_ws_past(s, pos4, 0);
    assert(skip_ws_s(s, pos4) == pos4);
    assert(s.subrange(pos5, pos6)[0] == s[pos5]);
    assert(s[pos5] == '"');
    lemma_skip_ws_past(s, pos4 + 1, 3);
    assert(skip_ws_s(s, pos4 + 1) == pos5);
    assert(s.subrange(pos5, pos6) == quote(bindings_name()));
    lemma_parse_quote(s, pos5, bindings_name());
    assert(parse_str_s(s, pos5) == Option::Some((bindings_name(), pos6)));
    assert(editor_name().len() == 6 && bindings_name().len() == 8);
    assert(bindings_name() != editor_name());
    // colon and value of the bindings member
    assert(s[pos6 + 0] == ':' && s[pos6 + 1] == ' ');
    lemma_skip_ws_past(s, pos6, 0);
    assert(skip_ws_s(s, pos6) == pos6);
    assert(s.subrange(pos7, pos8) == bj);
    lemma_bindings_val_at(s, pos7, c.bindings);
    assert(!is_ws('{'));
    lemma_skip_ws_past(s, pos6 + 1, 1);
    assert(skip_ws_s(s, pos6 + 1) == pos7);
    assert(parse_bindings_val(s, pos7) == Option::Some((c.bindings, pos8)));
    // the closing of the document
    assert(s[pos8 + 0] == '\n' && s[pos8 + 1] == '}');
    assert(!is_ws('}'));
    lemma_skip_ws_past(s, pos8, 1);
    assert(skip_ws_s(s, pos8) == pos8 + 1);
    assert(s[pos8 + 1] == '}');
    let tail2 = parse_members_tail(
        s,
        pos8,
        Option::Some(c.editor),
        Option::Some(c.bindings),
    );
    assert(tail2 is Some);
    assert(tail2->Some_0.0 =~= c);
    assert(tail2->Some_0.1 == pos9);
    // stepping back out through the members
    assert(parse_members(
        s,
        pos5,
        Option::Some(c.editor),
        Option::None,
    ) == Option::Some((c, pos9)));
    assert(parse_members_tail(s, pos4, Option::Some(c.editor), Option::None) == Option::Some(
        (c, pos9),
    ));
    assert(parse_members(s, 4, Option::None, Option::None) == Option::Some((c, pos9)));
    // and out through the document
    assert(skip_ws_s(s, pos9) == pos9);
    assert(s[4] != '}');
    assert(parse_doc_s(s) == Option::Some(c));
}

/// Removing a key that is not bound leaves the configuration, and with it
/// the rendered document, unchanged byte for byte.
pub proof fn lemma_unbind_absent_document(c: ConfigView, k: Seq<char>)
    requires
        crate::config::lookup(c.bindings, k) is None,
    ensures
        c.without_binding(k) == c,
        json_of(c.without_binding(k)) == json_of(c),
{
    crate::config::lemma_unbind_absent(c.bindings, k);
    assert(c.without_binding(k) =~= c);
}

/// Setting the editor and saving yields a document that loads with exactly
/// that editor and the bindings unchanged; a later setting overwrites the
/// earlier one.
pub proof fn lemma_set_editor_then_load(c: ConfigView, name: Seq<char>, name2: Seq<char>)
    requires
        c.wf(),
    ensures
        parse_doc_s(json_of(c.with_editor(name))) == Option::Some(c.with_editor(name)),
        c.with_editor(name).editor == Option::Some(name),
        c.with_editor(name).bindings == c.bindings,
        c.with_editor(name).with_editor(name2) == c.with_editor(name2),
{
    assert(c.with_editor(name).wf());
    lemma_save_then_load(c.with_editor(name));
    assert(c.with_editor(name).with_editor(name2) =~= c.with_editor(name2));
}

/// Entries end within the text, after where they began, and keep keys
/// pairwise distinct.
proof fn lemma_entries_props(s: Seq<char>, i: int, acc: Seq<(Seq<char>, Seq<char>)>)
    requires
        0 <= i <= s.len(),
        unique_keys(acc),
    ensures
        entries_s(s, i, acc) matches Some(p) ==> i < p.1 <= s.len() && unique_keys(p.0),
    decreases s.len() - i,
{
    lemma_skip_ws_bounds(s, i);
    let j = skip_ws_s(s, i);
    lemma_parse_str_bounds(s, j);
    if parse_str_s(s, j) is Some {
        let (k, a) = parse_str_s(s, j)->Some_0;
        lemma_skip_ws_bounds(s, a);
        let b = skip_ws_s(s, a);
        if b < s.len() && s[b] == ':' {
            lemma_skip_ws_bounds(s, b + 1);
            let c0 = skip_ws_s(s, b + 1);
            lemma_parse_str_bounds(s, c0);
            if parse_str_s(s, c0) is Some {
                let (v, d) = parse_str_s(s, c0)->Some_0;
                let acc2 = bind_entries(acc, k, v);
                crate::config::lemma_bind_resolve(acc, k, v, v);
                lemma_skip_ws_bounds(s, d);
                let e = skip_ws_s(s, d);
                if e < s.len() && s[e] == ',' {
                    lemma_entries_props(s, e + 1, acc2);
                }
            }
        }
    }
}

/// A parsed member list ends within the text and yields pairwise-distinct
/// binding keys.
proof fn lemma_members_props(
    s: Seq<char>,
    i: int,
    ed: Option<Option<Seq<char>>>,
    bn: Option<Seq<(Seq<char>, Seq<char>)>>,
)
    requires
        0 <= i <= s.len(),
        bn matches Some(x) ==> unique_keys(x),
    ensures
        parse_members(s, i, ed, bn) matches Some(p) ==> p.1 <= s.len() && unique_keys(
            p.0.bindings,
        ),
    decreases fields_left(ed, bn), 0int,
{
    lemma_parse_str_bounds(s, i);
    if parse_str_s(s, i) is Some {
        let (name, a) = parse_str_s(s, i)->Some_0;
        lemma_skip_ws_bounds(s, a);
        let b = skip_ws_s(s, a);
        if b < s.len() && s[b] == ':' {
            lemma_skip_ws_bounds(s, b + 1);
            let c0 = skip_ws_s(s, b + 1);
            if name == editor_name() && ed is None {
                lemma_parse_str_bounds(s, c0);
                if parse_editor_val(s, c0) is Some {
                    let (ev, d) = parse_editor_val(s, c0)->Some_0;
                    lemma_members_tail_props(s, d, Option::Some(ev), bn);
                }
            } else if name == bindings_name() && bn is None {
                if parse_bindings_val(s, c0) is Some {
                    let (bv, d) = parse_bindings_val(s, c0)->Some_0;
                    if lit_at(s, c0, null_lit()) {
                    } else {
                        lemma_skip_ws_bounds(s, c0 + 1);
                        lemma_entries_props(s, c0 + 1, Seq::empty());
                    }
                    lemma_members_tail_props(s, d, ed, Option::Some(bv));
                }
            }
        }
    }
}

/// As `lemma_members_props`, from the position after a member's value.
proof fn lemma_members_tail_props(
    s: Seq<char>,
    d: int,
    ed: Option<Option<Seq<char>>>,
    bn: Option<Seq<(Seq<char>, Seq<char>)>>,
)
    requires
        0 <= d <= s.len(),
        bn matches Some(x) ==> unique_keys(x),
    ensures
        parse_members_tail(s, d, ed, bn) matches Some(p) ==> p.1 <= s.len() && unique_keys(
            p.0.bindings,
        ),
    decreases fields_left(ed, bn), 1int,
{
    lemma_skip_ws_bounds(s, d);
    let e = skip_ws_s(s, d);
    if e < s.len() && s[e] == '}' {
    } else if e < s.len() && s[e] == ',' {
        lemma_skip_ws_bounds(s, e + 1);
        lemma_members_props(s, skip_ws_s(s, e + 1), ed, bn);
    }
}

/// The persisted document was not empty and did not follow the document
/// grammar.
#[derive(Debug, Clone, Copy, PartialEq, Eq, Structural)]
pub struct ParseError;

/// Whether `c` is whitespace between document tokens.
fn ws_char(c: char) -> (r: bool)
    ensures
        r == is_ws(c),
{
    c == ' ' || c == '\n' || c == '\t' || c == '\r'
}

/// The value of a hexadecimal digit, if `c` is one.
fn hex_val_char(c: char) -> (r: Option<u8>)
    ensures
        match r {
            Option::Some(v) => hex_val(c) == v as int && v < 16,
            Option::None => hex_val(c) < 0,
        },
{
    if c == '0' {
        Option::Some(0)
    } else if c == '1' {
        Option::Some(1)
    } else if c == '2' {
        Option::Some(2)
    } else if c == '3' {
        Option::Some(3)
    } else if c == '4' {
        Option::Some(4)
    } else if c == '5' {
        Option::Some(5)
    } else if c == '6' {
        Option::Some(6)
    } else if c == '7' {
        Option::Some(7)
    } else if c == '8' {
        Option::Some(8)
    } else if c == '9' {
        Option::Some(9)
    } else if c == 'a' || c == 'A' {
        Option::Some(10)
    } else if c == 'b' || c == 'B' {
        Option::Some(11)
    } else if c == 'c' || c == 'C' {
        Option::Some(12)
    } else if c == 'd' || c == 'D' {
        Option::Some(13)
    } else if c == 'e' || c == 'E' {
        Option::Some(14)
    } else if c == 'f' || c == 'F' {
        Option::Some(15)
    } else {
        Option::None
    }
}

/// The first index at or after `i` that does not hold whitespace.
fn skip_ws(s: &str, i: usize, n: usize) -> (r: usize)
    requires
        n == s@.len(),
        i <= n,
    ensures
        r as int == skip_ws_s(s@, i as int),
        i <= r <= n,
{
    let mut cur = i;
    while cur < n && ws_char(s.get_char(cur))
        invariant
            i <= cur <= n,
            n == s@.len(),
            skip_ws_s(s@, i as int) == skip_ws_s(s@, cur as int),
        decreases n - cur,
    {
        cur += 1;
    }
    cur
}

/// Read a string literal whose opening quote stands at `i`.
fn parse_string_at(s: &str, i: usize, n: usize) -> (r: Option<(String, usize)>)
    requires
        n == s@.len(),
        i <= n,
    ensures
        match r {
            Option::Some(p) => parse_str_s(s@, i as int) == Option::Some((p.0@, p.1 as int)) && i
                < p.1 <= n,
            Option::None => parse_str_s(s@, i as int) is None,
        },
{
    if i >= n || s.get_char(i) != '"' {
        return Option::None;
    }
    let mut cur = i + 1;
    let mut acc = String::new();
    loop
        invariant
            i < n,
            n == s@.len(),
            s@[i as int] == '"',
            i + 1 <= cur <= n,
            str_body(s@, (i + 1) as int, Seq::empty()) == str_body(s@, cur as int, acc@),
        decreases n - cur,
    {
        let ghost cur0 = cur as int;
        let ghost acc0 = acc@;
        if cur >= n {
            return Option::None;
        }
        let c = s.get_char(cur);
        if c == '"' {
            proof {
                assert(str_body(s@, cur0, acc0) == Option::Some((acc0, cur0 + 1)));
            }
            return Option::Some((acc, cur + 1));
        } else if c == '\\' {
            if cur + 1 >= n {
                return Option::None;
            }
            let e = s.get_char(cur + 1);
            if e == '"' {
                push_char(&mut acc, '"');
                proof {
                    assert(acc@ =~= acc0.push('"'));
                }
            } else if e == '\\' {
                push_char(&mut acc, '\\');
                proof {
                    assert(acc@ =~= acc0.push('\\'));
                }
            } else if e == '/' {
                push_char(&mut acc, '/');
                proof {
                    assert(acc@ =~= acc0.push('/'));
                }
            } else if e == 'b' {
                push_char(&mut acc, '\u{8}');
                proof {
                    assert(acc@ =~= acc0.push('\u{8}'));
                }
            } else if e == 'f' {
                push_char(&mut acc, '\u{c}');
                proof {
                    assert(acc@ =~= acc0.push('\u{c}'));
                }
            } else if e == 'n' {
                push_char(&mut acc, '\n');
                proof {
                    assert(acc@ =~= acc0.push('\n'));
                }
            } else if e == 'r' {
                push_char(&mut acc, '\r');
                proof {
                    assert(acc@ =~= acc0.push('\r'));
                }
            } else if e == 't' {
                push_char(&mut acc, '\t');
                proof {
                    assert(acc@ =~= acc0.push('\t'));
                }
            } else if e == 'u' {
                if n - cur < 6 {
                    return Option::None;
                }
                if s.get_char(cur + 2) != '0' || s.get_char(cur + 3) != '0' {
                    return Option::None;
                }
                let h1 = match hex_val_char(s.get_char(cur + 4)) {
                    Option::Some(v) => v,
                    Option::None => {
                        return Option::None;
                    },
                };
                let h2 = match hex_val_char(s.get_char(cur + 5)) {
                    Option::Some(v) => v,
                    Option::None => {
                        return Option::None;
                    },
                };
                let v: u8 = h1 * 16 + h2;
                push_char(&mut acc, v as char);
                proof {
                    assert(acc@ =~= acc0.push(
                        (((hex_val(s@[cur0 + 4]) * 16 + hex_val(s@[cur0 + 5])) as u8) as char),
                    ));
                    assert(str_body(s@, cur0, acc0) == str_body(s@, cur0 + 6, acc@));
                }
                cur += 6;
                continue ;
            } else {
                return Option::None;
            }
            proof {
                assert(str_body(s@, cur0, acc0) == str_body(s@, cur0 + 2, acc@));
            }
            cur += 2;
            continue ;
        } else if (c as u32) < 0x20 {
            return Option::None;
        } else {
            push_char(&mut acc, c);
            proof {
                assert(acc@ =~= acc0.push(s@[cur0]));
                assert(str_body(s@, cur0, acc0) == str_body(s@, cur0 + 1, acc@));
            }
            cur += 1;
        }
    }
}

/// Whether the literal `null` stands at `i`.
fn expect_null(s: &str, i: usize, n: usize) -> (r: bool)
    requires
        n == s@.len(),
        i <= n,
    ensures
        r == lit_at(s@, i as int, null_lit()),
{
    if n - i < 4 {
        return false;
    }
    let ok = s.get_char(i) == 'n' && s.get_char(i + 1) == 'u' && s.get_char(i + 2) == 'l'
        && s.get_char(i + 3) == 'l';
    proof {
        let sub = s@.subrange(i as int, i as int + 4);
        assert(sub[0] == s@[i as int]);
        assert(sub[1] == s@[i as int + 1]);
        assert(sub[2] == s@[i as int + 2]);
        assert(sub[3] == s@[i as int + 3]);
        if ok {
            assert(sub =~= null_lit());
        } else {
            if sub == null_lit() {
                assert(sub[0] == 'n' && sub[1] == 'u' && sub[2] == 'l' && sub[3] == 'l');
            }
        }
    }
    ok
}

/// Read the entries of a bindings object, from just after its opening brace.
fn parse_entries(s: &str, i: usize, n: usize) -> (r: Option<(Vec<Binding>, usize)>)
    requires
        n == s@.len(),
        i <= n,
    ensures
        match r {
            Option::Some(p) => entries_s(s@, i as int, Seq::empty()) == Option::Some(
                (pairs_of(p.0@), p.1 as int),
            ) && i < p.1 <= n,
            Option::None => entries_s(s@, i as int, Seq::empty()) is None,
        },
{
    let mut cur = i;
    let mut acc: Vec<Binding> = Vec::new();
    proof {
        assert(pairs_of(acc@) =~= Seq::<(Seq<char>, Seq<char>)>::empty());
    }
    loop
        invariant
            i <= cur <= n,
            n == s@.len(),
            entries_s(s@, i as int, Seq::empty()) == entries_s(s@, cur as int, pairs_of(acc@)),
        decreases n - cur,
    {
        let ghost cur0 = cur as int;
        let ghost accp0 = pairs_of(acc@);
        let j = skip_ws(s, cur, n);
        let (k, a) = match parse_string_at(s, j, n) {
            Option::Some(p) => p,
            Option::None => {
                return Option::None;
            },
        };
        let b = skip_ws(s, a, n);
        if b >= n || s.get_char(b) != ':' {
            return Option::None;
        }
        let c0 = skip_ws(s, b + 1, n);
        let (v, d) = match parse_string_at(s, c0, n) {
            Option::Some(p) => p,
            Option::None => {
                return Option::None;
            },
        };
        let ghost prev = pairs_of(acc@);
        let ghost kv = k@;
        let ghost vv = v@;
        insert_binding(&mut acc, k, v);
        proof {
            assert(pairs_of(acc@) == bind_entries(prev, kv, vv));
        }
        let e = skip_ws(s, d, n);
        if e < n && s.get_char(e) == '}' {
            proof {
                assert(entries_s(s@, cur0, accp0) == Option::Some(
                    (pairs_of(acc@), (e + 1) as int),
                ));
            }
            return Option::Some((acc, e + 1));
        } else if e < n && s.get_char(e) == ',' {
            proof {
                assert(entries_s(s@, cur0, accp0) == entries_s(s@, (e + 1) as int, pairs_of(acc@)));
            }
            cur = e + 1;
        } else {
            return Option::None;
        }
    }
}

/// The two member states gathered while reading the document object.
spec fn ed_state_view(ed: Option<Option<String>>) -> Option<Option<Seq<char>>> {
    match ed {
        Option::Some(Option::Some(t)) => Option::Some(Option::Some(t@)),
        Option::Some(Option::None) => Option::Some(Option::None),
        Option::None => Option::None,
    }
}

/// The bindings member state gathered while reading the document object.
spec fn bn_state_view(bn: Option<Vec<Binding>>) -> Option<Seq<(Seq<char>, Seq<char>)>> {
    match bn {
        Option::Some(v) => Option::Some(pairs_of(v@)),
        Option::None => Option::None,
    }
}

/// Read the members of the document object, from the first member name.
fn parse_members_exec(s: &str, i: usize, n: usize) -> (r: Option<(Config, usize)>)
    requires
        n == s@.len(),
        i <= n,
    ensures
        match r {
            Option::Some(p) => parse_members(s@, i as int, Option::None, Option::None)
                == Option::Some((p.0@, p.1 as int)) && p.1 <= n,
            Option::None => parse_members(s@, i as int, Option::None, Option::None) is None,
        },
{
    let mut cur = i;
    let mut ed: Option<Option<String>> = Option::None;
    let mut bn: Option<Vec<Binding>> = Option::None;
    loop
        invariant
            i <= cur <= n,
            n == s@.len(),
            parse_members(s@, i as int, Option::None, Option::None) == parse_members(
                s@,
                cur as int,
                ed_state_view(ed),
                bn_state_view(bn),
            ),
        decreases n - cur,
    {
        let ghost edv = ed_state_view(ed);
        let ghost bnv = bn_state_view(bn);
        let (name, a) = match parse_string_at(s, cur, n) {
            Option::Some(p) => p,
            Option::None => {
                return Option::None;
            },
        };
        let b = skip_ws(s, a, n);
        if b >= n || s.get_char(b) != ':' {
            return Option::None;
        }
        let c0 = skip_ws(s, b + 1, n);
        let ed_lit = String::from_str("editor");
        let bn_lit = String::from_str("bindings");
        proof {
            reveal_strlit("editor");
            reveal_strlit("bindings");
            assert(ed_lit@ =~= editor_name());
            assert(bn_lit@ =~= bindings_name());
        }
        let d: usize;
        if name == ed_lit {
            if ed.is_some() {
                return Option::None;
            }
            if expect_null(s, c0, n) {
                ed = Option::Some(Option::None);
                d = c0 + 4;
            } else {
                match parse_string_at(s, c0, n) {
                    Option::Some((t, j)) => {
                        ed = Option::Some(Option::Some(t));
                        d = j;
                    },
                    Option::None => {
                        return Option::None;
                    },
                }
            }
            proof {
                assert(parse_members(s@, cur as int, edv, bnv) == parse_members_tail(
                    s@,
                    d as int,
                    ed_state_view(ed),
                    bnv,
                ));
            }
        } else if name == bn_lit {
            if bn.is_some() {
                return Option::None;
            }
            if expect_null(s, c0, n) {
                bn = Option::Some(Vec::new());
                d = c0 + 4;
                proof {
                    assert(pairs_of(bn->Some_0@) =~= Seq::<(Seq<char>, Seq<char>)>::empty());
                }
            } else if c0 < n && s.get_char(c0) == '{' {
                let j = skip_ws(s, c0 + 1, n);
                if j < n && s.get_char(j) == '}' {
                    bn = Option::Some(Vec::new());
                    d = j + 1;
                    proof {
                        assert(pairs_of(bn->Some_0@) =~= Seq::<(Seq<char>, Seq<char>)>::empty());
                    }
                } else {
                    match parse_entries(s, c0 + 1, n) {
                        Option::Some((v, dd)) => {
                            bn = Option::Some(v);
                            d = dd;
                        },
                        Option::None => {
                            return Option::None;
                        },
                    }
                }
            } else {
                return Option::None;
            }
            proof {
                assert(parse_members(s@, cur as int, edv, bnv) == parse_members_tail(
                    s@,
                    d as int,
                    edv,
                    bn_state_view(bn),
                ));
            }
        } else {
            return Option::None;
        }
        let e = skip_ws(s, d, n);
        if e < n && s.get_char(e) == '}' {
            let cfg = Config {
                editor: match ed {
                    Option::Some(Option::Some(t)) => Option::Some(t),
                    _ => Option::None,
                },
                bindings: match bn {
                    Option::Some(v) => v,
                    Option::None => Vec::new(),
                },
            };
            proof {
                let tail = parse_members_tail(s@, d as int, ed_state_view(ed), bn_state_view(bn));
                assert(tail is Some);
                assert(cfg@ =~= tail->Some_0.0);
            }
            return Option::Some((cfg, e + 1));
        } else if e < n && s.get_char(e) == ',' {
            let next = skip_ws(s, e + 1, n);
            proof {
                assert(parse_members_tail(s@, d as int, ed_state_view(ed), bn_state_view(bn))
                    == parse_members(s@, next as int, ed_state_view(ed), bn_state_view(bn)));
            }
            cur = next;
        } else {
            return Option::None;
        }
    }
}

/// Read a configuration from the persisted document text: the default
/// configuration for an empty text, the parsed configuration for a text in
/// the document grammar, and an error for anything else.
pub fn parse_config(s: &str) -> (r: Result<Config, ParseError>)
    ensures
        s@.len() == 0 ==> (r matches Ok(c) && c@ == ConfigView::empty()),
        s@.len() > 0 ==> match r {
            Result::Ok(c) => parse_doc_s(s@) == Option::Some(c@),
            Result::Err(_) => parse_doc_s(s@) is None,
        },
        r is Ok <==> (s@.len() == 0 || parse_doc_s(s@) is Some),
        r matches Ok(c) ==> c@.wf(),
{
    let n = s.unicode_len();
    if n == 0 {
        return Result::Ok(Config::new());
    }
    let i0 = skip_ws(s, 0, n);
    if i0 >= n || s.get_char(i0) != '{' {
        return Result::Err(ParseError);
    }
    let i1 = skip_ws(s, i0 + 1, n);
    if i1 < n && s.get_char(i1) == '}' {
        let j = skip_ws(s, i1 + 1, n);
        if j == n {
            return Result::Ok(Config::new());
        } else {
            return Result::Err(ParseError);
        }
    }
    match parse_members_exec(s, i1, n) {
        Option::Some((cfg, jj)) => {
            let j2 = skip_ws(s, jj, n);
            if j2 == n {
                proof {
                    lemma_members_props(s@, i1 as int, Option::None, Option::None);
                }
                Result::Ok(cfg)
            } else {
                Result::Err(ParseError)
            }
        },
        Option::None => Result::Err(ParseError),
    }
}

/// Render a configuration as the persisted document text.
pub fn to_json(c: &Config) -> (r: String)
    ensures
        r@ == json_of(c@),
        r@.len() > 0,
{
    let mut out = String::new();
    out.append("{\n  \"editor\": ");
    proof {
        reveal_strlit("{\n  \"editor\": ");
        assert(out@ =~= seq![
            '{', '\n', ' ', ' ', '"', 'e', 'd', 'i', 't', 'o', 'r', '"', ':', ' ',
        ]);
    }
    let ghost mark1 = out@;
    match &c.editor {
        Option::Some(e) => {
            append_quoted(&mut out, e);
        },
        Option::None => {
            out.append("null");
            proof {
                reveal_strlit("null");
                assert(out@ =~= mark1 + seq!['n', 'u', 'l', 'l']);
            }
        },
    }
    proof {
        assert(out@ == mark1 + editor_json(c@.editor));
    }
    out.append(",\n  \"bindings\": ");
    proof {
        reveal_strlit(",\n  \"bindings\": ");
        assert(out@ =~= mark1 + editor_json(c@.editor) + seq![
            ',', '\n', ' ', ' ', '"', 'b', 'i', 'n', 'd', 'i', 'n', 'g', 's', '"', ':', ' ',
        ]);
    }
    let ghost mark2 = out@;
    let m = c.bindings.len();
    if m == 0 {
        out.append("{}");
        proof {
            reveal_strlit("{}");
            assert(c@.bindings.len() == 0);
            assert(out@ =~= mark2 + bindings_json(c@.bindings));
        }
    } else {
        push_char(&mut out, '{');
        let ghost ps = c@.bindings;
        let mut i: usize = 0;
        while i < m
            invariant
                0 < i <= m || i == 0,
                m == c.bindings@.len(),
                ps == c@.bindings,
                out@ == mark2 + seq!['{'] + entries_json(ps.subrange(0, i as int)),
            decreases m - i,
        {
            if i > 0 {
                push_char(&mut out, ',');
            }
            out.append("\n    ");
            proof {
                reveal_strlit("\n    ");
            }
            append_quoted(&mut out, &c.bindings[i].key);
            out.append(": ");
            proof {
                reveal_strlit(": ");
            }
            append_quoted(&mut out, &c.bindings[i].path);
            proof {
                let pre = ps.subrange(0, i as int);
                let post = ps.subrange(0, i + 1 as int);
                assert(post.drop_last() =~= pre);
                assert(post.last() == ps[i as int]);
                assert(ps[i as int] == c.bindings@[i as int]@);
                assert(ps[i as int].0 == c.bindings@[i as int].key@);
                assert(ps[i as int].1 == c.bindings@[i as int].path@);
                if i == 0 {
                    assert(entries_json(post) == entry_json(ps[0]));
                } else {
                    assert(entries_json(post) == entries_json(pre) + seq![','] + entry_json(
                        ps[i as int],
                    ));
                }
                assert(out@ =~= mark2 + seq!['{'] + entries_json(post));
            }
            i += 1;
        }
        out.append("\n  }");
        proof {
            reveal_strlit("\n  }");
            assert(ps.subrange(0, m as int) =~= ps);
            assert(ps.len() > 0);
            assert(out@ =~= mark2 + bindings_json(ps));
        }
    }
    out.append("\n}");
    proof {
        reveal_strlit("\n}");
        assert(out@ =~= json_of(c@));
        assert(out@.len() >= json_of(c@).len());
    }
    out
}

} // verus!
