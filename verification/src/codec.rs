//! The persisted-file format: a pretty-printed JSON array of todo records,
//! each an object with the fields `id`, `done` and `text` in that order.
//!
//! The format is defined by the spec functions `spec_encode` (the canonical
//! text of a list) and `spec_decode` (the lists that a text denotes, if any).
//! `decode_todos` accepts exactly the texts that `spec_decode` accepts, and
//! `lemma_decode_encode` shows that decoding a canonical text gives back the
//! encoded list, for every list.
//!
//! In string values, quote and backslash are escaped, and newline, carriage
//! return and tab get their short escapes; every other character is written
//! as itself. The reader accepts exactly the canonical text: the file is
//! written by no one else, and anything else found there is treated as
//! corrupt, which the loading policy turns into the empty list.

use vstd::prelude::*;

use crate::item::{views, TodoItem, TodoView};

verus! {

// ---------------------------------------------------------------------------
// The fixed pieces of the canonical text.
// ---------------------------------------------------------------------------

/// The whole file when the list is empty.
pub open spec fn lit_empty() -> Seq<char> {
    seq!['[', ']']
}

/// Opens a non-empty array.
pub open spec fn lit_open() -> Seq<char> {
    seq!['[', '\n']
}

/// Closes a non-empty array.
pub open spec fn lit_close() -> Seq<char> {
    seq!['\n', ']']
}

/// Separates two records.
pub open spec fn lit_sep() -> Seq<char> {
    seq![',', '\n']
}

/// Opens a record up to the opening quote of the `id` value.
pub open spec fn lit_item_pre() -> Seq<char> {
    seq![' ', ' ', '{', '\n', ' ', ' ', ' ', ' ', '"', 'i', 'd', '"', ':', ' ', '"']
}

/// From the closing quote of the `id` value to the `done` value.
pub open spec fn lit_mid_done() -> Seq<char> {
    seq!['"', ',', '\n', ' ', ' ', ' ', ' ', '"', 'd', 'o', 'n', 'e', '"', ':', ' ']
}

/// From the end of the `done` value to the opening quote of the `text` value.
pub open spec fn lit_mid_text() -> Seq<char> {
    seq![',', '\n', ' ', ' ', ' ', ' ', '"', 't', 'e', 'x', 't', '"', ':', ' ', '"']
}

/// From the closing quote of the `text` value to the end of the record.
pub open spec fn lit_item_post() -> Seq<char> {
    seq!['"', '\n', ' ', ' ', '}']
}

pub open spec fn lit_true() -> Seq<char> {
    seq!['t', 'r', 'u', 'e']
}

pub open spec fn lit_false() -> Seq<char> {
    seq!['f', 'a', 'l', 's', 'e']
}

// ---------------------------------------------------------------------------
// Encoding, as a spec-level function of the list.
// ---------------------------------------------------------------------------

/// How one character of a string value is written: quote, backslash, newline,
/// carriage return and tab get a two-character escape; every other character
/// stands for itself.
pub open spec fn escape_char(c: char) -> Seq<char> {
    if c == '"' {
        seq!['\\', '"']
    } else if c == '\\' {
        seq!['\\', '\\']
    } else if c == '\n' {
        seq!['\\', 'n']
    } else if c == '\r' {
        seq!['\\', 'r']
    } else if c == '\t' {
        seq!['\\', 't']
    } else {
        seq![c]
    }
}

/// The written form of a string value.
pub open spec fn spec_escape(s: Seq<char>) -> Seq<char>
    decreases s.len(),
{
    if s.len() == 0 {
        Seq::empty()
    } else {
        escape_char(s[0]) + spec_escape(s.drop_first())
    }
}

/// The canonical text of one record.
pub open spec fn spec_encode_item(t: TodoView) -> Seq<char> {
    lit_item_pre() + spec_escape(t.id) + lit_mid_done() + (
    if t.done {
        lit_true()
    } else {
        lit_false()
    }) + lit_mid_text() + spec_escape(t.text) + lit_item_post()
}

/// The canonical text of one or more records, separated by `lit_sep`.
pub open spec fn spec_encode_items(l: Seq<TodoView>) -> Seq<char>
    decreases l.len(),
{
    if l.len() <= 1 {
        spec_encode_item(l[0])
    } else {
        spec_encode_item(l[0]) + lit_sep() + spec_encode_items(l.drop_first())
    }
}

/// The canonical text of a whole list.
pub open spec fn spec_encode(l: Seq<TodoView>) -> Seq<char> {
    if l.len() == 0 {
        lit_empty()
    } else {
        lit_open() + spec_encode_items(l) + lit_close()
    }
}

// ---------------------------------------------------------------------------
// Decoding, as a spec-level function of the text.
// ---------------------------------------------------------------------------

/// `p` is a prefix of `s`.
pub open spec fn starts_with(s: Seq<char>, p: Seq<char>) -> bool {
    p.len() <= s.len() && s.subrange(0, p.len() as int) == p
}

/// Consume an exact prefix.
pub open spec fn expect(s: Seq<char>, p: Seq<char>) -> Option<Seq<char>> {
    if starts_with(s, p) {
        Some(s.skip(p.len() as int))
    } else {
        None
    }
}

/// The character that a two-character escape stands for, if the second
/// character is one of the recognized escapes.
pub open spec fn unescape_char(c: char) -> Option<char> {
    if c == '"' {
        Some('"')
    } else if c == '\\' {
        Some('\\')
    } else if c == 'n' {
        Some('\n')
    } else if c == 'r' {
        Some('\r')
    } else if c == 't' {
        Some('\t')
    } else {
        None
    }
}

/// Read a string value up to, but not including, its closing quote.
/// Returns the value and the rest of the text, which starts at the quote.
pub open spec fn parse_string_body(s: Seq<char>) -> Option<(Seq<char>, Seq<char>)>
    decreases s.len(),
{
    if s.len() == 0 {
        None
    } else if s[0] == '"' {
        Some((Seq::empty(), s))
    } else if s[0] == '\\' {
        if s.len() < 2 {
            None
        } else {
            match unescape_char(s[1]) {
                None => None,
                Some(c) => match parse_string_body(s.skip(2)) {
                    None => None,
                    Some((t, r)) => Some((seq![c] + t, r)),
                },
            }
        }
    } else {
        match parse_string_body(s.skip(1)) {
            None => None,
            Some((t, r)) => Some((seq![s[0]] + t, r)),
        }
    }
}

/// Read a boolean value.
pub open spec fn parse_bool(s: Seq<char>) -> Option<(bool, Seq<char>)> {
    if starts_with(s, lit_true()) {
        Some((true, s.skip(4)))
    } else if starts_with(s, lit_false()) {
        Some((false, s.skip(5)))
    } else {
        None
    }
}

/// Read one record.
pub open spec fn parse_item(s: Seq<char>) -> Option<(TodoView, Seq<char>)> {
    match expect(s, lit_item_pre()) {
        None => None,
        Some(r1) => match parse_string_body(r1) {
            None => None,
            Some((id, r2)) => match expect(r2, lit_mid_done()) {
                None => None,
                Some(r3) => match parse_bool(r3) {
                    None => None,
                    Some((done, r4)) => match expect(r4, lit_mid_text()) {
                        None => None,
                        Some(r5) => match parse_string_body(r5) {
                            None => None,
                            Some((text, r6)) => match expect(r6, lit_item_post()) {
                                None => None,
                                Some(r7) => Some((TodoView { id, done, text }, r7)),
                            },
                        },
                    },
                },
            },
        },
    }
}

/// Read one or more records, separated by `lit_sep` and closed by
/// `lit_close`, which is consumed.
pub open spec fn parse_items(s: Seq<char>) -> Option<(Seq<TodoView>, Seq<char>)>
    decreases s.len(),
{
    match parse_item(s) {
        None => None,
        Some((t, r)) => if starts_with(r, lit_sep()) {
            let r2 = r.skip(2);
            if r2.len() < s.len() {
                match parse_items(r2) {
                    None => None,
                    Some((l, r3)) => Some((seq![t] + l, r3)),
                }
            } else {
                None
            }
        } else if starts_with(r, lit_close()) {
            Some((seq![t], r.skip(2)))
        } else {
            None
        },
    }
}

/// The list that a whole text denotes, if any: either the empty-list text,
/// or an opened array of records with nothing after the closing bracket.
pub open spec fn spec_decode(s: Seq<char>) -> Option<Seq<TodoView>> {
    if s == lit_empty() {
        Some(Seq::empty())
    } else {
        match expect(s, lit_open()) {
            None => None,
            Some(r) => match parse_items(r) {
                None => None,
                Some((l, r2)) => if r2.len() == 0 {
                    Some(l)
                } else {
                    None
                },
            },
        }
    }
}

// ---------------------------------------------------------------------------
// Decoding inverts encoding.
// ---------------------------------------------------------------------------

/// Consuming a literal prefix from a text that carries it leaves the rest.
proof fn lemma_expect_prefix(p: Seq<char>, r: Seq<char>)
    ensures
        expect(p + r, p) == Some(r),
{
    assert((p + r).subrange(0, p.len() as int) =~= p);
    assert((p + r).skip(p.len() as int) =~= r);
}

/// Reading a string value back from its written form recovers it, whatever
/// follows the value, as long as what follows opens with the closing quote.
proof fn lemma_parse_escape(t: Seq<char>, rest: Seq<char>)
    requires
        rest.len() > 0,
        rest[0] == '"',
    ensures
        parse_string_body(spec_escape(t) + rest) == Some((t, rest)),
    decreases t.len(),
{
    let s = spec_escape(t) + rest;
    if t.len() == 0 {
        assert(s =~= rest);
    } else {
        let c = t[0];
        let e = escape_char(c);
        let tail = t.drop_first();
        assert(spec_escape(t) == e + spec_escape(tail));
        assert(s =~= e + (spec_escape(tail) + rest));
        lemma_parse_escape(tail, rest);
        assert(t =~= seq![c] + tail);
        if c == '"' || c == '\\' || c == '\n' || c == '\r' || c == '\t' {
            assert(e.len() == 2 && e[0] == '\\');
            assert(s[0] == '\\' && s[1] == e[1]);
            assert(unescape_char(e[1]) == Some(c));
            assert(s.skip(2) =~= spec_escape(tail) + rest);
        } else {
            assert(e =~= seq![c]);
            assert(s[0] == c);
            assert(s.skip(1) =~= spec_escape(tail) + rest);
        }
    }
}

/// Reading one record back from its canonical text recovers it, whatever
/// follows the record.
proof fn lemma_parse_item(t: TodoView, rest: Seq<char>)
    ensures
        parse_item(spec_encode_item(t) + rest) == Some((t, rest)),
{
    let b = if t.done {
        lit_true()
    } else {
        lit_false()
    };
    let s1 = spec_escape(t.id) + (lit_mid_done() + (b + (lit_mid_text() + (spec_escape(t.text)
        + (lit_item_post() + rest)))));
    let s = lit_item_pre() + s1;
    assert(spec_encode_item(t) + rest =~= s);
    lemma_expect_prefix(lit_item_pre(), s1);

    let s2 = lit_mid_done() + (b + (lit_mid_text() + (spec_escape(t.text) + (lit_item_post()
        + rest))));
    assert(s2[0] == '"');
    lemma_parse_escape(t.id, s2);

    let s3 = b + (lit_mid_text() + (spec_escape(t.text) + (lit_item_post() + rest)));
    lemma_expect_prefix(lit_mid_done(), s3);

    let s4 = lit_mid_text() + (spec_escape(t.text) + (lit_item_post() + rest));
    if t.done {
        assert(starts_with(s3, lit_true())) by {
            assert(s3.subrange(0, 4) =~= lit_true());
        }
        assert(s3.skip(4) =~= s4);
    } else {
        assert(s3[0] == 'f');
        assert(!starts_with(s3, lit_true())) by {
            if starts_with(s3, lit_true()) {
                assert(s3.subrange(0, 4)[0] == 't');
            }
        }
        assert(starts_with(s3, lit_false())) by {
            assert(s3.subrange(0, 5) =~= lit_false());
        }
        assert(s3.skip(5) =~= s4);
    }
    assert(parse_bool(s3) == Some((t.done, s4)));

    let s5 = spec_escape(t.text) + (lit_item_post() + rest);
    lemma_expect_prefix(lit_mid_text(), s5);

    let s6 = lit_item_post() + rest;
    assert(s6[0] == '"');
    lemma_parse_escape(t.text, s6);
    lemma_expect_prefix(lit_item_post(), rest);
}

/// Reading records back from the canonical text of a non-empty list recovers
/// the list, consuming the closing bracket, whatever follows it.
proof fn lemma_parse_items(l: Seq<TodoView>, rest: Seq<char>)
    requires
        l.len() >= 1,
    ensures
        parse_items(spec_encode_items(l) + (lit_close() + rest)) == Some((l, rest)),
    decreases l.len(),
{
    let s = spec_encode_items(l) + (lit_close() + rest);
    if l.len() == 1 {
        assert(s =~= spec_encode_item(l[0]) + (lit_close() + rest));
        lemma_parse_item(l[0], lit_close() + rest);
        let r = lit_close() + rest;
        assert(r[0] == '\n');
        assert(!starts_with(r, lit_sep())) by {
            if starts_with(r, lit_sep()) {
                assert(r.subrange(0, 2)[0] == ',');
            }
        }
        assert(starts_with(r, lit_close())) by {
            assert(r.subrange(0, 2) =~= lit_close());
        }
        assert(r.skip(2) =~= rest);
        assert(seq![l[0]] =~= l);
    } else {
        let tail = l.drop_first();
        let s1 = lit_sep() + (spec_encode_items(tail) + (lit_close() + rest));
        assert(s =~= spec_encode_item(l[0]) + s1);
        lemma_parse_item(l[0], s1);
        assert(s1[0] == ',');
        assert(starts_with(s1, lit_sep())) by {
            assert(s1.subrange(0, 2) =~= lit_sep());
        }
        let r2 = s1.skip(2);
        assert(r2 =~= spec_encode_items(tail) + (lit_close() + rest));
        assert(r2.len() < s.len());
        lemma_parse_items(tail, rest);
        assert(seq![l[0]] + tail =~= l);
    }
}

/// Decoding the canonical text of any list gives back that list: the
/// round-trip law of the persisted format.
pub proof fn lemma_decode_encode(l: Seq<TodoView>)
    ensures
        spec_decode(spec_encode(l)) == Some(l),
{
    let s = spec_encode(l);
    if l.len() == 0 {
        assert(s == lit_empty());
        assert(l =~= Seq::<TodoView>::empty());
    } else {
        let body = spec_encode_items(l) + (lit_close() + Seq::<char>::empty());
        assert(s =~= lit_open() + body);
        assert(s != lit_empty()) by {
            assert(s[1] == '\n');
            assert(lit_empty()[1] == ']');
        }
        lemma_expect_prefix(lit_open(), body);
        lemma_parse_items(l, Seq::empty());
    }
}

/// Saving twice with the list unchanged writes byte-identical text: the
/// canonical text is a function of the list alone.
pub proof fn lemma_encode_idempotent(s1: Seq<char>, s2: Seq<char>, l: Seq<TodoView>)
    requires
        s1 == spec_encode(l),
        s2 == spec_encode(l),
    ensures
        s1 == s2,
{
}

// ---------------------------------------------------------------------------
// Executable helpers.
// ---------------------------------------------------------------------------

/// Relies on `core::iter::Iterator::collect`: collecting the characters of a
/// character vector yields the string made of exactly those characters.
#[verifier::external_body]
fn chars_to_string(v: &Vec<char>) -> (r: String)
    ensures
        r@ == v@,
{
    v.iter().collect()
}

/// The characters of a string slice, as a vector.
fn str_chars(s: &str) -> (r: Vec<char>)
    ensures
        r@ == s@,
{
    let n = s.unicode_len();
    let mut r: Vec<char> = Vec::new();
    let mut i: usize = 0;
    while i < n
        invariant
            n == s@.len(),
            0 <= i <= n,
            r@ == s@.take(i as int),
        decreases n - i,
    {
        let c = s.get_char(i);
        r.push(c);
        proof {
            assert(s@.take(i + 1 as int) =~= s@.take(i as int).push(s@[i as int]));
        }
        i += 1;
    }
    proof {
        assert(s@.take(n as int) =~= s@);
    }
    r
}

/// Append every character of `p` to `out`.
fn append_chars(out: &mut Vec<char>, p: &Vec<char>)
    ensures
        final(out)@ == old(out)@ + p@,
{
    let ghost out0 = out@;
    let mut k: usize = 0;
    while k < p.len()
        invariant
            0 <= k <= p@.len(),
            out@ == out0 + p@.take(k as int),
        decreases p@.len() - k,
    {
        out.push(p[k]);
        proof {
            assert(out0 + p@.take(k + 1 as int) =~= (out0 + p@.take(k as int)).push(
                p@[k as int],
            ));
        }
        k += 1;
    }
    proof {
        assert(out0 + p@.take(p@.len() as int) =~= out0 + p@);
    }
}

fn open_chars() -> (v: Vec<char>)
    ensures
        v@ == lit_open(),
{
    let mut v: Vec<char> = Vec::new();
    v.push('[');
    v.push('\n');
    proof {
        assert(v@ =~= lit_open());
    }
    v
}

fn close_chars() -> (v: Vec<char>)
    ensures
        v@ == lit_close(),
{
    let mut v: Vec<char> = Vec::new();
    v.push('\n');
    v.push(']');
    proof {
        assert(v@ =~= lit_close());
    }
    v
}

fn sep_chars() -> (v: Vec<char>)
    ensures
        v@ == lit_sep(),
{
    let mut v: Vec<char> = Vec::new();
    v.push(',');
    v.push('\n');
    proof {
        assert(v@ =~= lit_sep());
    }
    v
}

fn item_pre_chars() -> (v: Vec<char>)
    ensures
        v@ == lit_item_pre(),
{
    let mut v: Vec<char> = Vec::new();
    v.push(' ');
    v.push(' ');
    v.push('{');
    v.push('\n');
    v.push(' ');
    v.push(' ');
    v.push(' ');
    v.push(' ');
    v.push('"');
    v.push('i');
    v.push('d');
    v.push('"');
    v.push(':');
    v.push(' ');
    v.push('"');
    proof {
        assert(v@ =~= lit_item_pre());
    }
    v
}

fn mid_done_chars() -> (v: Vec<char>)
    ensures
        v@ == lit_mid_done(),
{
    let mut v: Vec<char> = Vec::new();
    v.push('"');
    v.push(',');
    v.push('\n');
    v.push(' ');
    v.push(' ');
    v.push(' ');
    v.push(' ');
    v.push('"');
    v.push('d');
    v.push('o');
    v.push('n');
    v.push('e');
    v.push('"');
    v.push(':');
    v.push(' ');
    proof {
        assert(v@ =~= lit_mid_done());
    }
    v
}

fn mid_text_chars() -> (v: Vec<char>)
    ensures
        v@ == lit_mid_text(),
{
    let mut v: Vec<char> = Vec::new();
    v.push(',');
    v.push('\n');
    v.push(' ');
    v.push(' ');
    v.push(' ');
    v.push(' ');
    v.push('"');
    v.push('t');
    v.push('e');
    v.push('x');
    v.push('t');
    v.push('"');
    v.push(':');
    v.push(' ');
    v.push('"');
    proof {
        assert(v@ =~= lit_mid_text());
    }
    v
}

fn item_post_chars() -> (v: Vec<char>)
    ensures
        v@ == lit_item_post(),
{
    let mut v: Vec<char> = Vec::new();
    v.push('"');
    v.push('\n');
    v.push(' ');
    v.push(' ');
    v.push('}');
    proof {
        assert(v@ =~= lit_item_post());
    }
    v
}

fn true_chars() -> (v: Vec<char>)
    ensures
        v@ == lit_true(),
{
    let mut v: Vec<char> = Vec::new();
    v.push('t');
    v.push('r');
    v.push('u');
    v.push('e');
    proof {
        assert(v@ =~= lit_true());
    }
    v
}

fn false_chars() -> (v: Vec<char>)
    ensures
        v@ == lit_false(),
{
    let mut v: Vec<char> = Vec::new();
    v.push('f');
    v.push('a');
    v.push('l');
    v.push('s');
    v.push('e');
    proof {
        assert(v@ =~= lit_false());
    }
    v
}

// ---------------------------------------------------------------------------
// The encoder.
// ---------------------------------------------------------------------------

/// Writing one more character writes its escape after the rest.
proof fn lemma_escape_snoc(s: Seq<char>, c: char)
    ensures
        spec_escape(s.push(c)) == spec_escape(s) + escape_char(c),
    decreases s.len(),
{
    if s.len() == 0 {
        assert(s.push(c)[0] == c);
        assert(s.push(c).drop_first() =~= Seq::<char>::empty());
        assert(spec_escape(Seq::<char>::empty()) == Seq::<char>::empty());
        assert(spec_escape(s.push(c)) == escape_char(c) + Seq::<char>::empty());
        assert(escape_char(c) + Seq::<char>::empty() =~= Seq::<char>::empty() + escape_char(c));
    } else {
        assert(s.push(c).drop_first() =~= s.drop_first().push(c));
        assert(s.push(c)[0] == s[0]);
        lemma_escape_snoc(s.drop_first(), c);
        assert(spec_escape(s.push(c)) == escape_char(s[0]) + spec_escape(s.drop_first().push(c)));
        assert(escape_char(s[0]) + (spec_escape(s.drop_first()) + escape_char(c)) =~= (escape_char(
            s[0],
        ) + spec_escape(s.drop_first())) + escape_char(c));
    }
}

/// Append the written form of a string value to `out`.
fn push_escaped(out: &mut Vec<char>, s: &str)
    ensures
        final(out)@ == old(out)@ + spec_escape(s@),
{
    let ghost out0 = out@;
    let n = s.unicode_len();
    let mut i: usize = 0;
    while i < n
        invariant
            n == s@.len(),
            0 <= i <= n,
            out@ == out0 + spec_escape(s@.take(i as int)),
        decreases n - i,
    {
        let c = s.get_char(i);
        if c == '"' {
            out.push('\\');
            out.push('"');
        } else if c == '\\' {
            out.push('\\');
            out.push('\\');
        } else if c == '\n' {
            out.push('\\');
            out.push('n');
        } else if c == '\r' {
            out.push('\\');
            out.push('r');
        } else if c == '\t' {
            out.push('\\');
            out.push('t');
        } else {
            out.push(c);
        }
        proof {
            assert(s@.take(i + 1 as int) =~= s@.take(i as int).push(s@[i as int]));
            lemma_escape_snoc(s@.take(i as int), s@[i as int]);
            assert(out@ =~= out0 + spec_escape(s@.take(i + 1 as int)));
        }
        i += 1;
    }
    proof {
        assert(s@.take(n as int) =~= s@);
    }
}

/// Append the canonical text of one record to `out`.
fn push_item(out: &mut Vec<char>, t: &TodoItem)
    ensures
        final(out)@ == old(out)@ + spec_encode_item(t@),
{
    let ghost out0 = out@;
    let pre = item_pre_chars();
    append_chars(out, &pre);
    push_escaped(out, t.id.as_str());
    let mid1 = mid_done_chars();
    append_chars(out, &mid1);
    if t.done {
        let b = true_chars();
        append_chars(out, &b);
    } else {
        let b = false_chars();
        append_chars(out, &b);
    }
    let mid2 = mid_text_chars();
    append_chars(out, &mid2);
    push_escaped(out, t.text.as_str());
    let post = item_post_chars();
    append_chars(out, &post);
    proof {
        assert(out@ =~= out0 + spec_encode_item(t@));
    }
}

/// The text of two groups of records one after the other is the two texts
/// with a separator between them.
proof fn lemma_encode_items_concat(l1: Seq<TodoView>, l2: Seq<TodoView>)
    requires
        l1.len() >= 1,
        l2.len() >= 1,
    ensures
        spec_encode_items(l1 + l2) == spec_encode_items(l1) + lit_sep() + spec_encode_items(l2),
    decreases l1.len(),
{
    if l1.len() == 1 {
        assert((l1 + l2).drop_first() =~= l2);
        assert((l1 + l2)[0] == l1[0]);
        assert(spec_encode_items(l1 + l2) =~= spec_encode_items(l1) + lit_sep()
            + spec_encode_items(l2));
    } else {
        assert((l1 + l2).drop_first() =~= l1.drop_first() + l2);
        assert((l1 + l2)[0] == l1[0]);
        lemma_encode_items_concat(l1.drop_first(), l2);
        assert(spec_encode_items(l1 + l2) =~= spec_encode_items(l1) + lit_sep()
            + spec_encode_items(l2));
    }
}

/// Serialize a list of records to the canonical text of the persisted file.
/// The result is a function of the list alone, so writing the same list
/// twice writes identical text.
pub fn encode_todos(todos: &Vec<TodoItem>) -> (r: String)
    ensures
        r@ == spec_encode(views(todos@)),
{
    let ghost vs = views(todos@);
    let mut out: Vec<char> = Vec::new();
    if todos.len() == 0 {
        out.push('[');
        out.push(']');
        proof {
            assert(out@ =~= lit_empty());
        }
    } else {
        out.push('[');
        out.push('\n');
        proof {
            assert(out@ =~= lit_open());
        }
        let n = todos.len();
        let mut i: usize = 0;
        while i < n
            invariant
                1 <= n == todos@.len(),
                0 <= i <= n,
                vs == views(todos@),
                i == 0 ==> out@ == lit_open(),
                i >= 1 ==> out@ == lit_open() + spec_encode_items(vs.take(i as int)),
            decreases n - i,
        {
            if i > 0 {
                let sep = sep_chars();
                append_chars(&mut out, &sep);
            }
            push_item(&mut out, &todos[i]);
            proof {
                assert(vs[i as int] == todos@[i as int]@);
                let single = seq![vs[i as int]];
                assert(spec_encode_items(single) == spec_encode_item(vs[i as int]));
                assert(vs.take(i + 1 as int) =~= vs.take(i as int) + single);
                if i > 0 {
                    lemma_encode_items_concat(vs.take(i as int), single);
                } else {
                    assert(vs.take(1) =~= single);
                }
                assert(out@ =~= lit_open() + spec_encode_items(vs.take(i + 1 as int)));
            }
            i += 1;
        }
        let close = close_chars();
        append_chars(&mut out, &close);
        proof {
            assert(vs.take(n as int) =~= vs);
        }
    }
    chars_to_string(&out)
}

// ---------------------------------------------------------------------------
// The decoder.
// ---------------------------------------------------------------------------

/// Try to consume the exact characters of `p` at position `i`.
fn expect_at(cs: &Vec<char>, i: usize, p: &Vec<char>) -> (r: Option<usize>)
    requires
        i <= cs@.len(),
    ensures
        match r {
            Some(j) => i + p@.len() == j && j <= cs@.len() && expect(cs@.skip(i as int), p@)
                == Some(cs@.skip(j as int)),
            None => expect(cs@.skip(i as int), p@) is None,
        },
{
    let n = cs.len();
    if n - i < p.len() {
        proof {
            assert(cs@.skip(i as int).len() < p@.len());
        }
        return None;
    }
    let mut k: usize = 0;
    while k < p.len()
        invariant
            n == cs@.len(),
            i + p@.len() <= n,
            0 <= k <= p@.len(),
            forall|m: int| 0 <= m < k ==> cs@[i + m] == p@[m],
        decreases p@.len() - k,
    {
        if cs[i + k] != p[k] {
            proof {
                let s = cs@.skip(i as int);
                if starts_with(s, p@) {
                    assert(s.subrange(0, p@.len() as int)[k as int] == s[k as int]);
                    assert(s[k as int] == cs@[i + k]);
                }
            }
            return None;
        }
        k += 1;
    }
    proof {
        let s = cs@.skip(i as int);
        assert(s.subrange(0, p@.len() as int) =~= p@);
        assert(s.skip(p@.len() as int) =~= cs@.skip(i + p@.len()));
    }
    Some(i + p.len())
}

/// Read a string value starting at `start`, stopping before the closing
/// quote, and undo the escapes.
fn scan_string(cs: &Vec<char>, start: usize) -> (r: Option<(Vec<char>, usize)>)
    requires
        start <= cs@.len(),
    ensures
        match r {
            Some(tj) => start <= tj.1 <= cs@.len() && parse_string_body(cs@.skip(start as int))
                == Some((tj.0@, cs@.skip(tj.1 as int))),
            None => parse_string_body(cs@.skip(start as int)) is None,
        },
{
    let mut acc: Vec<char> = Vec::new();
    let mut i: usize = start;
    loop
        invariant
            start <= i <= cs@.len(),
            parse_string_body(cs@.skip(start as int)) == (match parse_string_body(
                cs@.skip(i as int),
            ) {
                Some((t2, r2)) => Some((acc@ + t2, r2)),
                None => None::<(Seq<char>, Seq<char>)>,
            }),
        decreases cs@.len() - i,
    {
        if i >= cs.len() {
            proof {
                assert(cs@.skip(i as int).len() == 0);
            }
            return None;
        }
        let c = cs[i];
        proof {
            assert(cs@.skip(i as int)[0] == cs@[i as int]);
        }
        if c == '"' {
            proof {
                assert(parse_string_body(cs@.skip(i as int)) == Some(
                    (Seq::<char>::empty(), cs@.skip(i as int)),
                ));
                assert(acc@ + Seq::<char>::empty() =~= acc@);
            }
            return Some((acc, i));
        } else if c == '\\' {
            if i + 1 >= cs.len() {
                proof {
                    assert(cs@.skip(i as int).len() < 2);
                }
                return None;
            }
            let d = cs[i + 1];
            proof {
                assert(cs@.skip(i as int)[1] == cs@[i + 1]);
            }
            let u: char;
            if d == '"' {
                u = '"';
            } else if d == '\\' {
                u = '\\';
            } else if d == 'n' {
                u = '\n';
            } else if d == 'r' {
                u = '\r';
            } else if d == 't' {
                u = '\t';
            } else {
                proof {
                    assert(unescape_char(d) is None);
                }
                return None;
            }
            proof {
                assert(unescape_char(d) == Some(u));
                assert(cs@.skip(i as int).skip(2) =~= cs@.skip(i + 2 as int));
                let ghost rec = parse_string_body(cs@.skip(i + 2 as int));
                if rec is Some {
                    let ghost (t2, r2) = rec.unwrap();
                    assert(parse_string_body(cs@.skip(i as int)) == Some((seq![u] + t2, r2)));
                    assert(acc@ + (seq![u] + t2) =~= acc@.push(u) + t2);
                }
            }
            acc.push(u);
            i = i + 2;
        } else {
            proof {
                assert(cs@.skip(i as int).skip(1) =~= cs@.skip(i + 1 as int));
                let ghost rec = parse_string_body(cs@.skip(i + 1 as int));
                if rec is Some {
                    let ghost (t2, r2) = rec.unwrap();
                    assert(parse_string_body(cs@.skip(i as int)) == Some((seq![c] + t2, r2)));
                    assert(acc@ + (seq![c] + t2) =~= acc@.push(c) + t2);
                }
            }
            acc.push(c);
            i = i + 1;
        }
    }
}

/// Read one record starting at `start`.
fn parse_item_at(cs: &Vec<char>, start: usize) -> (r: Option<(TodoItem, usize)>)
    requires
        start <= cs@.len(),
    ensures
        match r {
            Some(tj) => start <= tj.1 <= cs@.len() && parse_item(cs@.skip(start as int)) == Some(
                (tj.0@, cs@.skip(tj.1 as int)),
            ),
            None => parse_item(cs@.skip(start as int)) is None,
        },
{
    let pre = item_pre_chars();
    let j1 = match expect_at(cs, start, &pre) {
        None => {
            return None;
        },
        Some(j) => j,
    };
    let (idv, j2) = match scan_string(cs, j1) {
        None => {
            return None;
        },
        Some(tj) => tj,
    };
    let mid1 = mid_done_chars();
    let j3 = match expect_at(cs, j2, &mid1) {
        None => {
            return None;
        },
        Some(j) => j,
    };
    let t_lit = true_chars();
    let f_lit = false_chars();
    let done: bool;
    let j4: usize;
    match expect_at(cs, j3, &t_lit) {
        Some(j) => {
            done = true;
            j4 = j;
        },
        None => {
            match expect_at(cs, j3, &f_lit) {
                Some(j) => {
                    done = false;
                    j4 = j;
                },
                None => {
                    proof {
                        assert(parse_bool(cs@.skip(j3 as int)) is None);
                    }
                    return None;
                },
            }
        },
    }
    proof {
        assert(parse_bool(cs@.skip(j3 as int)) == Some((done, cs@.skip(j4 as int))));
    }
    let mid2 = mid_text_chars();
    let j5 = match expect_at(cs, j4, &mid2) {
        None => {
            return None;
        },
        Some(j) => j,
    };
    let (textv, j6) = match scan_string(cs, j5) {
        None => {
            return None;
        },
        Some(tj) => tj,
    };
    let post = item_post_chars();
    let j7 = match expect_at(cs, j6, &post) {
        None => {
            return None;
        },
        Some(j) => j,
    };
    let item = TodoItem { id: chars_to_string(&idv), done, text: chars_to_string(&textv) };
    proof {
        assert(item@ == TodoView { id: idv@, done, text: textv@ });
    }
    Some((item, j7))
}

/// Deserialize the text of the persisted file. Returns the list it denotes,
/// or `None` when the text is not a well-formed persisted list.
pub fn decode_todos(s: &str) -> (r: Option<Vec<TodoItem>>)
    ensures
        match r {
            Some(v) => spec_decode(s@) == Some(views(v@)),
            None => spec_decode(s@) is None,
        },
{
    let cs = str_chars(s);
    if cs.len() == 2 && cs[0] == '[' && cs[1] == ']' {
        let empty: Vec<TodoItem> = Vec::new();
        proof {
            assert(s@ =~= lit_empty());
            assert(views(empty@) =~= Seq::<TodoView>::empty());
        }
        return Some(empty);
    }
    proof {
        assert(s@ != lit_empty()) by {
            if s@ == lit_empty() {
                assert(s@.len() == 2);
                assert(s@[0] == '[' && s@[1] == ']');
            }
        }
        assert(cs@.skip(0) =~= cs@);
    }
    let open = open_chars();
    let start = match expect_at(&cs, 0, &open) {
        None => {
            return None;
        },
        Some(j) => j,
    };
    let sep = sep_chars();
    let close = close_chars();
    let mut acc: Vec<TodoItem> = Vec::new();
    let mut i: usize = start;
    loop
        invariant
            start <= i <= cs@.len(),
            cs@ == s@,
            s@ != lit_empty(),
            expect(s@, lit_open()) == Some(cs@.skip(start as int)),
            sep@ == lit_sep(),
            close@ == lit_close(),
            parse_items(cs@.skip(start as int)) == (match parse_items(cs@.skip(i as int)) {
                Some((l, r2)) => Some((views(acc@) + l, r2)),
                None => None::<(Seq<TodoView>, Seq<char>)>,
            }),
        decreases cs@.len() - i,
    {
        let (t, j) = match parse_item_at(&cs, i) {
            None => {
                return None;
            },
            Some(tj) => tj,
        };
        let ghost i0 = i as int;
        match expect_at(&cs, j, &sep) {
            Some(j2) => {
                proof {
                    let si = cs@.skip(i0);
                    let r2 = cs@.skip(j as int).skip(2);
                    assert(r2 == cs@.skip(j2 as int));
                    assert(r2.len() < si.len());
                    let ghost rec = parse_items(cs@.skip(j2 as int));
                    if rec is Some {
                        let ghost (l, r3) = rec.unwrap();
                        assert(parse_items(si) == Some((seq![t@] + l, r3)));
                        assert(views(acc@.push(t)) =~= views(acc@).push(t@));
                        assert(views(acc@) + (seq![t@] + l) =~= views(acc@).push(t@) + l);
                    } else {
                        assert(parse_items(si) is None);
                    }
                }
                acc.push(t);
                i = j2;
            },
            None => {
                match expect_at(&cs, j, &close) {
                    Some(j2) => {
                        proof {
                            let si = cs@.skip(i0);
                            assert(cs@.skip(j as int).skip(2) == cs@.skip(j2 as int));
                            assert(parse_items(si) == Some((seq![t@], cs@.skip(j2 as int))));
                            assert(views(acc@.push(t)) =~= views(acc@).push(t@));
                            assert(views(acc@) + seq![t@] =~= views(acc@).push(t@));
                        }
                        acc.push(t);
                        if j2 == cs.len() {
                            proof {
                                assert(cs@.skip(j2 as int).len() == 0);
                            }
                            return Some(acc);
                        } else {
                            proof {
                                assert(cs@.skip(j2 as int).len() != 0);
                            }
                            return None;
                        }
                    },
                    None => {
                        proof {
                            assert(parse_items(cs@.skip(i0)) is None);
                        }
                        return None;
                    },
                }
            },
        }
    }
}

} // verus!
