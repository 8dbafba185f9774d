//! Where a queueing discipline is attached, as a JSON array.
use crate::text;
use vstd::prelude::*;

verus! {

pub open spec fn hex_digit(d: int) -> char {
    seq!['0', '1', '2', '3', '4', '5', '6', '7', '8', '9', 'a', 'b', 'c', 'd', 'e', 'f'][d]
}

/// A character as it stands in a JSON string: quotes, backslashes and control characters
/// are escaped, and every other character stands for itself.
pub open spec fn escaped(c: char) -> Seq<char> {
    if c == '"' {
        seq!['\\', '"']
    } else if c == '\\' {
        seq!['\\', '\\']
    } else if c == '\u{8}' {
        seq!['\\', 'b']
    } else if c == '\t' {
        seq!['\\', 't']
    } else if c == '\n' {
        seq!['\\', 'n']
    } else if c == '\u{c}' {
        seq!['\\', 'f']
    } else if c == '\r' {
        seq!['\\', 'r']
    } else if (c as int) < 0x20 {
        seq!['\\', 'u', '0', '0', hex_digit(c as int / 16), hex_digit(c as int % 16)]
    } else {
        seq![c]
    }
}

/// What follows the opening quote of a JSON string.
pub open spec fn quoted_rest(text: Seq<char>) -> Seq<char>
    decreases text.len(),
{
    if text.len() == 0 {
        seq!['"']
    } else {
        escaped(text[0]) + quoted_rest(text.drop_first())
    }
}

pub open spec fn json_string(text: Seq<char>) -> Seq<char> {
    seq!['"'] + quoted_rest(text)
}

pub open spec fn json_bool(value: bool) -> Seq<char> {
    if value {
        "true"@
    } else {
        "false"@
    }
}

pub open spec fn json_option(text: Option<Seq<char>>) -> Seq<char> {
    match text {
        Some(text) => json_string(text),
        None => "null"@,
    }
}

/// The JSON array of a boolean, a text and a text that may be missing.
pub open spec fn json_triple(root: bool, handle: Seq<char>, parent: Option<Seq<char>>) -> Seq<
    char,
> {
    seq!['['] + json_bool(root) + seq![','] + json_string(handle) + seq![','] + json_option(parent)
        + seq![']']
}

/// Calls `serde_json::to_string` on the attachment as a tuple of a boolean, a text and a
/// text that may be missing. Claimed is the compact JSON array of the three: no white
/// space, `null` for the missing text, and the escapes of `escaped` in strings. The call
/// fails only where serializing a value fails, which these values do not.
#[verifier::external_body]
pub(crate) fn attachment_text(root: bool, handle: &String, parent: &Option<String>) -> (json:
    String)
    ensures
        json@ == json_triple(root, handle@, text::optional_text(*parent)),
{
    serde_json::to_string(&(root, handle, parent)).expect("a tuple of texts serializes")
}

/// Escapes tell characters apart, whatever follows them.
proof fn lemma_escapes_differ(a: char, b: char, x: Seq<char>, y: Seq<char>)
    requires
        escaped(a) + x == escaped(b) + y,
    ensures
        a == b,
        x == y,
{
    let s = escaped(a) + x;
    let t = escaped(b) + y;
    assert(s[0] == escaped(a)[0] && t[0] == escaped(b)[0]);
    if escaped(a).len() > 1 && escaped(b).len() > 1 {
        assert(s[1] == escaped(a)[1] && t[1] == escaped(b)[1]);
        if escaped(a).len() == 6 && escaped(b).len() == 6 {
            assert(s[4] == escaped(a)[4] && t[4] == escaped(b)[4]);
            assert(s[5] == escaped(a)[5] && t[5] == escaped(b)[5]);
            lemma_hex_digits_differ(a as int / 16, b as int / 16);
            lemma_hex_digits_differ(a as int % 16, b as int % 16);
            assert(a as int == b as int);
        }
    }
    assert(a == b);
    assert(x =~= s.skip(escaped(a).len() as int));
    assert(y =~= t.skip(escaped(b).len() as int));
}

proof fn lemma_hex_digits_differ(a: int, b: int)
    requires
        0 <= a < 16,
        0 <= b < 16,
        hex_digit(a) == hex_digit(b),
    ensures
        a == b,
{
}

/// Strings tell texts apart, whatever follows them.
proof fn lemma_quotes_differ(a: Seq<char>, b: Seq<char>, x: Seq<char>, y: Seq<char>)
    requires
        quoted_rest(a) + x == quoted_rest(b) + y,
    ensures
        a == b,
        x == y,
    decreases a.len(),
{
    let s = quoted_rest(a) + x;
    let t = quoted_rest(b) + y;
    if a.len() == 0 || b.len() == 0 {
        assert(s[0] == quoted_rest(a)[0]);
        assert(t[0] == quoted_rest(b)[0]);
        if b.len() > 0 {
            assert(t[0] == escaped(b[0])[0]);
        }
        if a.len() > 0 {
            assert(s[0] == escaped(a[0])[0]);
        }
        assert(a =~= b);
        assert(x =~= s.skip(1));
        assert(y =~= t.skip(1));
    } else {
        let c = a.drop_first();
        let d = b.drop_first();
        assert(s =~= escaped(a[0]) + (quoted_rest(c) + x));
        assert(t =~= escaped(b[0]) + (quoted_rest(d) + y));
        lemma_escapes_differ(a[0], b[0], quoted_rest(c) + x, quoted_rest(d) + y);
        lemma_quotes_differ(c, d, x, y);
        assert(a =~= seq![a[0]] + c);
        assert(b =~= seq![b[0]] + d);
    }
}

/// An array by what stands behind its opening bracket.
proof fn lemma_array_parts(root: bool, handle: Seq<char>, parent: Option<Seq<char>>)
    ensures
        json_triple(root, handle, parent) == seq!['['] + (json_bool(root) + (seq![',', '"'] + (
        quoted_rest(handle) + (seq![','] + (json_option(parent) + seq![']']))))),
{
    assert(json_triple(root, handle, parent) =~= seq!['['] + (json_bool(root) + (seq![',', '"'] + (
    quoted_rest(handle) + (seq![','] + (json_option(parent) + seq![']']))))));
}

/// What follows two beginnings of the same length is the same where the whole is.
proof fn lemma_same_rest(p: Seq<char>, q: Seq<char>, x: Seq<char>, y: Seq<char>)
    requires
        p + x == q + y,
        p.len() == q.len(),
    ensures
        x == y,
{
    assert(x =~= (p + x).skip(p.len() as int));
    assert(y =~= (q + y).skip(q.len() as int));
}

proof fn lemma_bools_differ(a: bool, b: bool, x: Seq<char>, y: Seq<char>)
    requires
        json_bool(a) + x == json_bool(b) + y,
    ensures
        a == b,
        x == y,
{
    reveal_strlit("true");
    reveal_strlit("false");
    assert((json_bool(a) + x)[0] == json_bool(a)[0]);
    assert((json_bool(b) + y)[0] == json_bool(b)[0]);
    lemma_same_rest(json_bool(a), json_bool(b), x, y);
}

proof fn lemma_options_differ(
    a: Option<Seq<char>>,
    b: Option<Seq<char>>,
    x: Seq<char>,
    y: Seq<char>,
)
    requires
        json_option(a) + x == json_option(b) + y,
    ensures
        a == b,
{
    reveal_strlit("null");
    assert((json_option(a) + x)[0] == json_option(a)[0]);
    assert((json_option(b) + y)[0] == json_option(b)[0]);
    if let (Some(c), Some(d)) = (a, b) {
        assert(json_option(a) + x =~= seq!['"'] + (quoted_rest(c) + x));
        assert(json_option(b) + y =~= seq!['"'] + (quoted_rest(d) + y));
        lemma_same_rest(seq!['"'], seq!['"'], quoted_rest(c) + x, quoted_rest(d) + y);
        lemma_quotes_differ(c, d, x, y);
    }
}

/// Different attachments are written differently.
pub proof fn attachments_tell_apart(
    root: bool,
    handle: Seq<char>,
    parent: Option<Seq<char>>,
    other_root: bool,
    other_handle: Seq<char>,
    other_parent: Option<Seq<char>>,
)
    requires
        json_triple(root, handle, parent) == json_triple(other_root, other_handle, other_parent),
    ensures
        root == other_root,
        handle == other_handle,
        parent == other_parent,
{
    lemma_array_parts(root, handle, parent);
    lemma_array_parts(other_root, other_handle, other_parent);
    let e = json_option(parent) + seq![']'];
    let f = json_option(other_parent) + seq![']'];
    let c = quoted_rest(handle) + (seq![','] + e);
    let d = quoted_rest(other_handle) + (seq![','] + f);
    let a = seq![',', '"'] + c;
    let b = seq![',', '"'] + d;
    lemma_same_rest(seq!['['], seq!['['], json_bool(root) + a, json_bool(other_root) + b);
    lemma_bools_differ(root, other_root, a, b);
    lemma_same_rest(seq![',', '"'], seq![',', '"'], c, d);
    lemma_quotes_differ(handle, other_handle, seq![','] + e, seq![','] + f);
    lemma_same_rest(seq![','], seq![','], e, f);
    lemma_options_differ(parent, other_parent, seq![']'], seq![']']);
}

} // verus!
