use vstd::prelude::*;
use escapade::Escapable;
use regex::Regex;
use vstd::utf8::{
    char_is_scalar, decode_utf8, encode_scalar, encode_utf8, encode_utf8_decode_utf8,
    encode_utf8_valid_utf8, leading_byte_width_1, valid_utf8,
};

verus! {

/// Number of bytes of the UTF-8 encoding of `s`.
pub open spec fn utf8_len(s: Seq<char>) -> nat {
    encode_utf8(s).len()
}

/// Three back quotes start at `i`.
pub open spec fn is_fence_at(s: Seq<char>, i: int) -> bool {
    &&& 0 <= i
    &&& i + 3 <= s.len()
    &&& s[i] == '`'
    &&& s[i + 1] == '`'
    &&& s[i + 2] == '`'
}

/// The first position at or after `from` where three back quotes start.
pub open spec fn first_fence_from(s: Seq<char>, from: int) -> Option<int>
    decreases s.len() - from,
{
    if from < 0 || from + 3 > s.len() {
        None
    } else if is_fence_at(s, from) {
        Some(from)
    } else {
        first_fence_from(s, from + 1)
    }
}

/// The first fenced block at or after `from`: from its opening fence to the end of the
/// first closing fence after it.
pub open spec fn block_from(s: Seq<char>, from: int) -> Option<(int, int)> {
    match first_fence_from(s, from) {
        Some(p) => match first_fence_from(s, p + 3) {
            Some(q) => Some((p, q + 3)),
            None => None,
        },
        None => None,
    }
}

/// All fenced blocks at or after `from`, in order and without overlap.
pub open spec fn blocks_from(s: Seq<char>, from: int) -> Seq<(int, int)>
    decreases s.len() - from,
{
    match block_from(s, from) {
        Some((p, e)) => if from < e <= s.len() {
            seq![(p, e)] + blocks_from(s, e)
        } else {
            Seq::empty()
        },
        None => Seq::empty(),
    }
}

/// Length of the first line of `t` (up to the first newline, or all of it).
pub open spec fn line_len_from(t: Seq<char>, i: int) -> int
    decreases t.len() - i,
{
    if i < 0 || i >= t.len() || t[i] == '\n' {
        i
    } else {
        line_len_from(t, i + 1)
    }
}

pub open spec fn first_line_len(t: Seq<char>) -> int {
    line_len_from(t, 0)
}

/// The first line of `t`, each character cut down to its low byte.
pub open spec fn lang_bytes(t: Seq<char>) -> Seq<u8> {
    Seq::new(first_line_len(t) as nat, |i: int| (t[i] as u32) as u8)
}

/// The language of a block: its first line, or `default` when that line is empty.
pub open spec fn block_lang(t: Seq<char>) -> Seq<char> {
    if first_line_len(t) == 0 {
        "default"@
    } else {
        decode_utf8(lang_bytes(t))
    }
}

/// The character position whose UTF-8 offset in `t` equals the length of the first line.
pub open spec fn content_start(t: Seq<char>) -> Option<int> {
    if exists|m: int| 0 <= m <= t.len() && utf8_len(t.take(m)) == first_line_len(t) {
        Some(choose|m: int| 0 <= m <= t.len() && utf8_len(t.take(m)) == first_line_len(t))
    } else {
        None
    }
}

/// The body of a block can be taken apart without a failure.
pub open spec fn block_ok(t: Seq<char>) -> bool {
    &&& content_start(t) is Some
    &&& (first_line_len(t) == 0 || valid_utf8(lang_bytes(t)))
}

/// Digits of a nibble in upper-case hexadecimal.
pub open spec fn hex_digit(n: int) -> char {
    if n < 10 {
        ('0' as int + n) as char
    } else {
        ('A' as int + n - 10) as char
    }
}

pub open spec fn is_ascii_alnum(c: char) -> bool {
    ('a' <= c <= 'z') || ('A' <= c <= 'Z') || ('0' <= c <= '9')
}

/// How the attribute escaping writes one character.
pub open spec fn escape_char(c: char) -> Seq<char> {
    if c == '"' {
        seq!['&', 'q', 'u', 'o', 't', ';']
    } else if c == '&' {
        seq!['&', 'a', 'm', 'p', ';']
    } else if c == '\'' {
        seq!['&', '#', 'x', '2', '7', ';']
    } else if c == '<' {
        seq!['&', 'l', 't', ';']
    } else if c == '>' {
        seq!['&', 'g', 't', ';']
    } else if (c as u32) < 256 && ((c as u32) > 127 || !is_ascii_alnum(c)) {
        seq!['&', '#', 'x', hex_digit((c as u32) as int / 16), hex_digit((c as u32) as int % 16), ';']
    } else {
        seq![c]
    }
}

/// The attribute escaping of a text, character by character.
pub open spec fn escape_chars(s: Seq<char>) -> Seq<char>
    decreases s.len(),
{
    if s.len() == 0 {
        Seq::empty()
    } else {
        escape_chars(s.drop_last()) + escape_char(s.last())
    }
}

/// The object that stands for a block whose text between the fences is `t`.
pub open spec fn block_body(t: Seq<char>) -> Seq<char> {
    "{ \"___PIPE___type\": \"embedded\", \"___PIPE___content\": \""@ + escape_chars(
        t.skip(content_start(t).unwrap()),
    ) + "\", \"___PIPE___lang\": \""@ + block_lang(t) + "\"}"@
}

/// The text from `from` on, each fenced block replaced by the object that stands for it.
pub open spec fn embed_from(s: Seq<char>, from: int) -> Seq<char>
    decreases s.len() - from,
{
    match block_from(s, from) {
        Some((p, e)) => if from < e <= s.len() {
            s.subrange(from, p) + block_body(s.subrange(p + 3, e - 3)) + embed_from(s, e)
        } else {
            Seq::empty()
        },
        None => s.subrange(from, s.len() as int),
    }
}

/// Every fenced block from `from` on can be taken apart without a failure.
pub open spec fn embed_ok_from(s: Seq<char>, from: int) -> bool
    decreases s.len() - from,
{
    match block_from(s, from) {
        Some((p, e)) => if from < e <= s.len() {
            block_ok(s.subrange(p + 3, e - 3)) && embed_ok_from(s, e)
        } else {
            true
        },
        None => true,
    }
}

pub open spec fn embed(s: Seq<char>) -> Seq<char> {
    embed_from(s, 0)
}

pub open spec fn embed_ok(s: Seq<char>) -> bool {
    embed_ok_from(s, 0)
}

pub proof fn lemma_encode_concat(a: Seq<char>, b: Seq<char>)
    ensures
        encode_utf8(a + b) == encode_utf8(a) + encode_utf8(b),
    decreases a.len(),
{
    if a.len() == 0 {
        assert(a + b =~= b);
        assert(encode_utf8(a) =~= Seq::<u8>::empty());
        assert(encode_utf8(b) =~= Seq::<u8>::empty() + encode_utf8(b));
    } else {
        assert((a + b).drop_first() =~= a.drop_first() + b);
        assert((a + b)[0] == a[0]);
        lemma_encode_concat(a.drop_first(), b);
        assert(encode_utf8(a + b) =~= encode_scalar(a[0] as u32) + (encode_utf8(a.drop_first())
            + encode_utf8(b)));
    }
}

pub proof fn lemma_scalar_len(c: char)
    ensures
        1 <= encode_scalar(c as u32).len() <= 4,
        (c as u32) <= 0x7F ==> encode_scalar(c as u32).len() == 1,
        0x80 <= (c as u32) <= 0x7FF ==> encode_scalar(c as u32).len() == 2,
        0x800 <= (c as u32) <= 0xFFFF ==> encode_scalar(c as u32).len() == 3,
        0x10000 <= (c as u32) ==> encode_scalar(c as u32).len() == 4,
{
    char_is_scalar(c);
}

/// Adding a character adds its encoded width.
pub proof fn lemma_utf8_len_step(s: Seq<char>, j: int)
    requires
        0 <= j < s.len(),
    ensures
        utf8_len(s.take(j + 1)) == utf8_len(s.take(j)) + encode_scalar(s[j] as u32).len(),
        utf8_len(s.take(j)) < utf8_len(s.take(j + 1)),
{
    assert(s.take(j + 1) =~= s.take(j) + seq![s[j]]);
    lemma_encode_concat(s.take(j), seq![s[j]]);
    assert(seq![s[j]].drop_first() =~= Seq::<char>::empty());
    reveal_with_fuel(encode_utf8, 2);
    assert(encode_utf8(seq![s[j]]) =~= encode_scalar(s[j] as u32));
    lemma_scalar_len(s[j]);
}

/// Longer prefixes have longer encodings.
pub proof fn lemma_utf8_len_mono(s: Seq<char>, i: int, j: int)
    requires
        0 <= i <= j <= s.len(),
    ensures
        utf8_len(s.take(i)) <= utf8_len(s.take(j)),
        i < j ==> utf8_len(s.take(i)) < utf8_len(s.take(j)),
    decreases j - i,
{
    if i < j {
        lemma_utf8_len_step(s, j - 1);
        lemma_utf8_len_mono(s, i, j - 1);
    }
}

/// Every character takes at least one byte.
pub proof fn lemma_utf8_len_ge(x: Seq<char>)
    ensures
        x.len() <= utf8_len(x),
    decreases x.len(),
{
    if x.len() > 0 {
        lemma_utf8_len_ge(x.drop_last());
        assert(x.take(x.len() - 1) =~= x.drop_last());
        assert(x.take(x.len() as int) =~= x);
        lemma_utf8_len_step(x, x.len() - 1);
    }
}

/// The encoding of a prefix splits at an inner position.
pub proof fn lemma_utf8_len_split(s: Seq<char>, i: int, j: int)
    requires
        0 <= i <= j <= s.len(),
    ensures
        utf8_len(s.take(j)) == utf8_len(s.take(i)) + utf8_len(s.subrange(i, j)),
{
    assert(s.take(j) =~= s.take(i) + s.subrange(i, j));
    lemma_encode_concat(s.take(i), s.subrange(i, j));
}

pub proof fn lemma_first_fence(s: Seq<char>, from: int)
    requires
        0 <= from,
    ensures
        match first_fence_from(s, from) {
            Some(p) => from <= p && is_fence_at(s, p) && forall|i: int|
                from <= i < p ==> !is_fence_at(s, i),
            None => forall|i: int| from <= i ==> !is_fence_at(s, i),
        },
    decreases s.len() - from,
{
    if from + 3 > s.len() {
    } else if is_fence_at(s, from) {
    } else {
        lemma_first_fence(s, from + 1);
    }
}

pub proof fn lemma_block_from(s: Seq<char>, from: int)
    requires
        0 <= from,
    ensures
        match block_from(s, from) {
            Some((p, e)) => from <= p && p + 6 <= e <= s.len() && is_fence_at(s, p)
                && is_fence_at(s, e - 3),
            None => true,
        },
{
    lemma_first_fence(s, from);
    if let Some(p) = first_fence_from(s, from) {
        lemma_first_fence(s, p + 3);
    }
}

/// Text without three back quotes in a row passes through unchanged.
pub proof fn law_text_without_fence_unchanged(s: Seq<char>)
    requires
        forall|i: int| !is_fence_at(s, i),
    ensures
        embed_ok(s),
        embed(s) == s,
{
    lemma_first_fence(s, 0);
    assert(s.subrange(0, s.len() as int) =~= s);
}

/// `x` holds no back quote.
pub open spec fn no_back_quote(x: Seq<char>) -> bool {
    forall|i: int| 0 <= i < x.len() ==> x[i] != '`'
}

/// Where fences of `a + b + c` lie when only `b` holds back quotes.
proof fn lemma_fence_shift(a: Seq<char>, b: Seq<char>, c: Seq<char>, i: int)
    requires
        no_back_quote(a),
        no_back_quote(c),
    ensures
        0 <= i ==> is_fence_at(a + b + c, a.len() + i) == is_fence_at(b, i),
        0 <= i < a.len() ==> !is_fence_at(a + b + c, i),
{
    let s = a + b + c;
    if 0 <= i < a.len() {
        assert(s[i] == a[i]);
    }
    if 0 <= i {
        let p = a.len() + i;
        if i + 3 <= b.len() {
            assert(s[p] == b[i]);
            assert(s[p + 1] == b[i + 1]);
            assert(s[p + 2] == b[i + 2]);
        } else if p + 3 <= s.len() {
            // the third back quote would lie in `c`
            let q = if i + 1 > b.len() { p } else if i + 2 > b.len() { p + 1 } else { p + 2 };
            assert(s[q] == c[q - a.len() - b.len()]);
        }
    }
}

proof fn lemma_first_fence_shift(a: Seq<char>, b: Seq<char>, c: Seq<char>, f: int)
    requires
        no_back_quote(a),
        no_back_quote(c),
        0 <= f,
    ensures
        first_fence_from(a + b + c, a.len() + f) == match first_fence_from(b, f) {
            Some(p) => Some(a.len() + p),
            None => None,
        },
    decreases (a + b + c).len() - (a.len() + f),
{
    let s = a + b + c;
    lemma_fence_shift(a, b, c, f);
    if a.len() + f + 3 > s.len() {
    } else if is_fence_at(s, a.len() + f) {
    } else {
        lemma_first_fence_shift(a, b, c, f + 1);
        if f + 3 > b.len() {
            lemma_first_fence(b, f + 1);
            if let Some(p) = first_fence_from(b, f + 1) {
                assert(false);
            }
        }
    }
}

proof fn lemma_first_fence_skip_prefix(a: Seq<char>, b: Seq<char>, c: Seq<char>, x: int)
    requires
        no_back_quote(a),
        no_back_quote(c),
        0 <= x <= a.len(),
    ensures
        first_fence_from(a + b + c, x) == first_fence_from(a + b + c, a.len() as int),
    decreases a.len() - x,
{
    let s = a + b + c;
    if x < a.len() {
        lemma_fence_shift(a, b, c, x);
        lemma_first_fence_skip_prefix(a, b, c, x + 1);
        if x + 3 > s.len() {
            lemma_first_fence(s, a.len() as int);
            lemma_first_fence(s, x);
        }
    }
}

proof fn lemma_embed_shift(a: Seq<char>, b: Seq<char>, c: Seq<char>, f: int)
    requires
        no_back_quote(a),
        no_back_quote(c),
        0 <= f <= b.len(),
    ensures
        embed_from(a + b + c, a.len() + f) == embed_from(b, f) + c,
        embed_ok_from(a + b + c, a.len() + f) == embed_ok_from(b, f),
    decreases b.len() - f,
{
    let s = a + b + c;
    let n = a.len();
    lemma_first_fence_shift(a, b, c, f);
    lemma_block_from(b, f);
    match first_fence_from(b, f) {
        Some(p) => {
            lemma_first_fence(b, f);
            lemma_first_fence_shift(a, b, c, p + 3);
        },
        None => {},
    }
    match block_from(b, f) {
        Some((p, e)) => {
            assert(block_from(s, n + f) == Some((n + p, n + e)));
            lemma_embed_shift(a, b, c, e);
            assert(s.subrange(n + f, n + p) =~= b.subrange(f, p));
            assert(s.subrange(n + p + 3, n + e - 3) =~= b.subrange(p + 3, e - 3));
            assert(embed_from(s, n + f) =~= b.subrange(f, p) + block_body(b.subrange(p + 3, e - 3))
                + (embed_from(b, e) + c));
        },
        None => {
            assert(block_from(s, n + f) is None);
            assert(s.subrange(n + f, s.len() as int) =~= b.subrange(f, b.len() as int) + c);
        },
    }
}

/// Text without back quotes around a part leaves that part's embedding alone.
pub proof fn law_embedding_is_local(a: Seq<char>, b: Seq<char>, c: Seq<char>)
    requires
        no_back_quote(a),
        no_back_quote(c),
    ensures
        embed_ok(a + b + c) == embed_ok(b),
        embed(a + b + c) == a + embed(b) + c,
{
    let s = a + b + c;
    let n = a.len() as int;
    lemma_embed_shift(a, b, c, 0);
    lemma_first_fence_skip_prefix(a, b, c, 0);
    assert(block_from(s, 0) == block_from(s, n));
    lemma_block_from(s, n);
    match block_from(s, n) {
        Some((p, e)) => {
            if n > 0 {
                assert(s.subrange(0, p) =~= a + s.subrange(n, p));
                assert(embed_from(s, 0) =~= a + embed_from(s, n));
            }
        },
        None => {
            assert(s.subrange(0, s.len() as int) =~= a + s.subrange(n, s.len() as int));
        },
    }
}

pub open spec fn fence() -> Seq<char> {
    seq!['`', '`', '`']
}

proof fn lemma_line_len_is(t: Seq<char>, k: int, i: int)
    requires
        0 <= i <= k <= t.len(),
        k == t.len() || t[k] == '\n',
        forall|j: int| 0 <= j < k ==> t[j] != '\n',
    ensures
        line_len_from(t, i) == k,
    decreases k - i,
{
    if i < k {
        lemma_line_len_is(t, k, i + 1);
    }
}

proof fn lemma_closing_fence(b: Seq<char>, q: int, x: int)
    requires
        3 <= x <= q,
        is_fence_at(b, q),
        forall|i: int| 3 <= i < q ==> b[i] != '`',
    ensures
        first_fence_from(b, x) == Some(q),
    decreases q - x,
{
    if x < q {
        assert(b[x] != '`');
        lemma_closing_fence(b, q, x + 1);
    }
}

/// Between two fences, text without back quotes is one block.
proof fn lemma_lone_block(t: Seq<char>)
    requires
        no_back_quote(t),
    ensures
        embed(fence() + t + fence()) == block_body(t),
        embed_ok(fence() + t + fence()) == block_ok(t),
{
    let b = fence() + t + fence();
    let n = t.len() as int;
    assert(b.len() == n + 6);
    assert(is_fence_at(b, 0));
    assert(is_fence_at(b, n + 3));
    assert forall|i: int| 3 <= i < n + 3 implies b[i] != '`' by {
        assert(b[i] == t[i - 3]);
    }
    lemma_closing_fence(b, n + 3, 3);
    assert(first_fence_from(b, 0) == Some(0int));
    assert(block_from(b, 0) == Some((0int, n + 6)));
    assert(block_from(b, n + 6) is None);
    assert(b.subrange(3, n + 3) =~= t);
    assert(b.subrange(n + 6, b.len() as int) =~= Seq::<char>::empty());
    assert(b.subrange(0, 0) =~= Seq::<char>::empty());
    assert(embed_from(b, n + 6) == b.subrange(n + 6, b.len() as int));
    assert(embed_ok_from(b, n + 6));
    assert(embed_from(b, 0) =~= block_body(t));
}

/// A lone fenced block, whose first line is an ASCII language name (or empty), becomes the
/// embedded object that holds that name (`default` for an empty one) and all the text after
/// the first line up to the closing fence, escaped, whatever lines it holds; the text around
/// the block is kept.
pub proof fn law_single_block(a: Seq<char>, t: Seq<char>, c: Seq<char>, k: int)
    requires
        no_back_quote(a),
        no_back_quote(t),
        no_back_quote(c),
        0 <= k <= t.len(),
        k == t.len() || t[k] == '\n',
        forall|i: int| 0 <= i < k ==> t[i] != '\n' && (t[i] as u32) < 128,
    ensures
        embed_ok(a + fence() + t + fence() + c),
        embed(a + fence() + t + fence() + c) == a
            + "{ \"___PIPE___type\": \"embedded\", \"___PIPE___content\": \""@ + escape_chars(
            t.skip(k),
        ) + "\", \"___PIPE___lang\": \""@ + (if k == 0 {
            "default"@
        } else {
            t.take(k)
        }) + "\"}"@ + c,
{
    let b = fence() + t + fence();
    assert(a + fence() + t + fence() + c =~= a + b + c);
    law_embedding_is_local(a, b, c);
    lemma_lone_block(t);
    lemma_line_len_is(t, k, 0);
    assert forall|i: int| 0 <= i < t.take(k).len() implies (#[trigger] t.take(k)[i] as u32)
        < 128 by {
        assert(t.take(k)[i] == t[i]);
    }
    law_ascii_first_line_block_ok(t);
}

pub open spec fn all_ascii(x: Seq<char>) -> bool {
    forall|i: int| 0 <= i < x.len() ==> (#[trigger] x[i] as u32) < 128
}

/// ASCII text encodes to one byte per character, that character's code.
pub proof fn lemma_ascii_encoding(x: Seq<char>)
    requires
        all_ascii(x),
    ensures
        encode_utf8(x) == Seq::new(x.len(), |i: int| (x[i] as u32) as u8),
    decreases x.len(),
{
    if x.len() > 0 {
        let t = x.drop_first();
        assert forall|i: int| 0 <= i < t.len() implies (#[trigger] t[i] as u32) < 128 by {
            assert(t[i] == x[i + 1]);
        }
        lemma_ascii_encoding(t);
        let c = x[0] as u32;
        assert(c < 128);
        assert(leading_byte_width_1(c) == (c as u8)) by (bit_vector)
            requires
                c < 128,
        ;
        assert(encode_utf8(x) =~= Seq::new(x.len(), |i: int| (x[i] as u32) as u8));
    }
}

/// A block whose first line is ASCII is taken apart without a failure: its language is that
/// line (or `default`), and its content is what follows the line.
pub proof fn law_ascii_first_line_block_ok(t: Seq<char>)
    requires
        all_ascii(t.take(first_line_len(t))),
    ensures
        block_ok(t),
        content_start(t) == Some(first_line_len(t)),
        first_line_len(t) > 0 ==> block_lang(t) == t.take(first_line_len(t)),
{
    let k = first_line_len(t);
    lemma_line_len_bounds(t, 0);
    let line = t.take(k);
    lemma_ascii_encoding(line);
    assert(utf8_len(t.take(k)) == k);
    assert(lang_bytes(t) =~= encode_utf8(line));
    encode_utf8_valid_utf8(line);
    encode_utf8_decode_utf8(line);
    assert forall|m: int| 0 <= m <= t.len() && utf8_len(t.take(m)) == k implies m == k by {
        if m < k {
            lemma_utf8_len_mono(t, m, k);
        } else if m > k {
            lemma_utf8_len_mono(t, k, m);
        }
    }
}

pub proof fn lemma_line_len_bounds(t: Seq<char>, i: int)
    requires
        0 <= i <= t.len(),
    ensures
        i <= line_len_from(t, i) <= t.len(),
    decreases t.len() - i,
{
    if i < t.len() && t[i] != '\n' {
        lemma_line_len_bounds(t, i + 1);
    }
}

/// A character the escaping never lets through as it is.
pub open spec fn is_special(c: char) -> bool {
    c == '"' || c == '\'' || c == '`' || c == '\\' || c == '\n' || c == '<' || c == '>'
}

pub proof fn lemma_escape_char_plain(c: char, i: int)
    requires
        0 <= i < escape_char(c).len(),
    ensures
        !is_special(escape_char(c)[i]),
{
    let e = escape_char(c);
    if c == '"' || c == '&' || c == '\'' || c == '<' || c == '>' {
    } else if (c as u32) < 256 && ((c as u32) > 127 || !is_ascii_alnum(c)) {
        let v = (c as u32) as int;
        assert(0 <= v / 16 < 16);
        assert(0 <= v % 16 < 16);
        if i == 3 {
            assert(e[3] == hex_digit(v / 16));
        }
        if i == 4 {
            assert(e[4] == hex_digit(v % 16));
        }
    } else {
        assert(e[i] == c);
        assert(!is_special(c));
    }
}

/// Escaped text holds no quote, back quote, backslash, angle bracket or newline: an embedded
/// block's content cannot end the string that holds it.
pub proof fn law_escaped_text_is_plain(s: Seq<char>)
    ensures
        forall|i: int| 0 <= i < escape_chars(s).len() ==> !is_special(#[trigger] escape_chars(s)[i]),
    decreases s.len(),
{
    if s.len() > 0 {
        law_escaped_text_is_plain(s.drop_last());
        let a = escape_chars(s.drop_last());
        let b = escape_char(s.last());
        assert forall|i: int| 0 <= i < escape_chars(s).len() implies !is_special(
            #[trigger] escape_chars(s)[i],
        ) by {
            if i < a.len() {
                assert(escape_chars(s)[i] == a[i]);
            } else {
                assert(escape_chars(s)[i] == b[i - a.len()]);
                lemma_escape_char_plain(s.last(), i - a.len());
            }
        }
    }
}

/// Number of bytes of the UTF-8 encoding of `c`.
fn char_width(c: char) -> (w: usize)
    ensures
        w == encode_scalar(c as u32).len(),
{
    proof {
        lemma_scalar_len(c);
    }
    let v = c as u32;
    if v <= 0x7F {
        1
    } else if v <= 0x7FF {
        2
    } else if v <= 0xFFFF {
        3
    } else {
        4
    }
}

/// From character `j0` at byte offset `acc0`, walks forward until the byte offset reaches
/// `target`.
fn advance_to(
    cs: &Vec<char>,
    j0: usize,
    acc0: usize,
    target: usize,
    Ghost(bound): Ghost<int>,
) -> (r: (usize, usize))
    requires
        j0 <= bound <= cs@.len(),
        acc0 == utf8_len(cs@.take(j0 as int)),
        acc0 <= target <= utf8_len(cs@.take(bound)),
        utf8_len(cs@.take(bound)) <= usize::MAX,
    ensures
        j0 <= r.0 <= bound,
        r.1 == utf8_len(cs@.take(r.0 as int)),
        target <= r.1,
        forall|i: int| j0 <= i < r.0 ==> utf8_len(cs@.take(i)) < target,
{
    let mut j = j0;
    let mut acc = acc0;
    // the length is a usize, so every index below it can be incremented
    let n = cs.len();
    while acc < target
        invariant
            j0 <= j <= bound <= cs@.len(),
            n == cs@.len(),
            acc == utf8_len(cs@.take(j as int)),
            target <= utf8_len(cs@.take(bound)),
            utf8_len(cs@.take(bound)) <= usize::MAX,
            forall|i: int| j0 <= i < j ==> utf8_len(cs@.take(i)) < target,
        decreases bound - j,
    {
        assert(j < bound) by {
            if j >= bound {
                lemma_utf8_len_mono(cs@, bound, j as int);
            }
        }
        proof {
            lemma_utf8_len_step(cs@, j as int);
            lemma_utf8_len_mono(cs@, j + 1, bound);
        }
        let w = char_width(cs[j]);
        acc = acc + w;
        j = j + 1;
    }
    (j, acc)
}

/// `String::push`: appends one character.
#[verifier::external_body]
pub(crate) fn push_char(s: &mut String, c: char)
    ensures
        final(s)@ == old(s)@.push(c),
{
    s.push(c);
}

/// `String::from_utf8`: the text the bytes encode, or `None` when they are not valid UTF-8.
#[verifier::external_body]
fn string_from_utf8(bytes: Vec<u8>) -> (r: Option<String>)
    ensures
        match r {
            Some(s) => valid_utf8(bytes@) && s@ == decode_utf8(bytes@),
            None => !valid_utf8(bytes@),
        },
{
    String::from_utf8(bytes).ok()
}

/// escapade's `Escapable::escape`, then `Escaped::into_inner`: the attribute escaping of the
/// text, one character at a time (`escape_char`).
#[verifier::external_body]
fn escape_attribute(s: &str) -> (r: String)
    ensures
        r@ == escape_chars(s@),
{
    s.escape().into_inner()
}

/// The spans of the matches of the regex `(?s)```.*?``` ` in `content`, as byte offsets:
/// the leftmost match is the first three back quotes up to the end of the next three back
/// quotes after them, and the search goes on after each match.
#[verifier::external_body]
fn fenced_block_spans(content: &str) -> (r: Vec<(usize, usize)>)
    ensures
        r@.len() == blocks_from(content@, 0).len(),
        forall|i: int|
            0 <= i < r@.len() ==> {
                &&& r@[i].0 == utf8_len(content@.take(blocks_from(content@, 0)[i].0))
                &&& r@[i].1 == utf8_len(content@.take(blocks_from(content@, 0)[i].1))
            },
{
    let re = Regex::new(r"(?s)```.*?```").unwrap();
    re.find_iter(content).map(|m| (m.start(), m.end())).collect()
}

/// Appends the characters `cs[lo..hi]`.
pub(crate) fn push_range(out: &mut String, cs: &Vec<char>, lo: usize, hi: usize)
    requires
        lo <= hi <= cs@.len(),
    ensures
        final(out)@ == old(out)@ + cs@.subrange(lo as int, hi as int),
{
    let mut i = lo;
    while i < hi
        invariant
            lo <= i <= hi <= cs@.len(),
            out@ == old(out)@ + cs@.subrange(lo as int, i as int),
        decreases hi - i,
    {
        push_char(out, cs[i]);
        assert(cs@.subrange(lo as int, i + 1) =~= cs@.subrange(lo as int, i as int).push(cs@[i as int]));
        i = i + 1;
    }
}

/// The object standing for the block whose text between the fences is `cs[lo..hi]`, which
/// starts at byte offset `base`; `None` where taking the block apart fails.
fn block_text(cs: &Vec<char>, lo: usize, hi: usize, base: usize) -> (r: Option<String>)
    requires
        lo <= hi <= cs@.len(),
        base == utf8_len(cs@.take(lo as int)),
        utf8_len(cs@.take(hi as int)) <= usize::MAX,
    ensures
        match r {
            Some(body) => block_ok(cs@.subrange(lo as int, hi as int)) && body@ == block_body(
                cs@.subrange(lo as int, hi as int),
            ),
            None => !block_ok(cs@.subrange(lo as int, hi as int)),
        },
{
    let ghost t = cs@.subrange(lo as int, hi as int);
    // the first line
    let mut i = lo;
    while i < hi && cs[i] != '\n'
        invariant
            lo <= i <= hi <= cs@.len(),
            t == cs@.subrange(lo as int, hi as int),
            line_len_from(t, 0) == line_len_from(t, i - lo),
        decreases hi - i,
    {
        i = i + 1;
    }
    let k = i - lo;
    assert(first_line_len(t) == k);
    // its language
    let lang = if k == 0 {
        String::from_str("default")
    } else {
        let mut bytes: Vec<u8> = Vec::new();
        let mut j = lo;
        while j < i
            invariant
                lo <= j <= i <= hi <= cs@.len(),
                k == i - lo,
                t == cs@.subrange(lo as int, hi as int),
                bytes@ == lang_bytes(t).take(j - lo),
                first_line_len(t) == k,
            decreases i - j,
        {
            let c = cs[j];
            assert(t[j - lo] == c);
            let b = #[verifier::truncate] ((c as u32) as u8);
            assert(lang_bytes(t)[j - lo] == b);
            bytes.push(b);
            assert(bytes@ =~= lang_bytes(t).take(j + 1 - lo));
            j = j + 1;
        }
        assert(bytes@ =~= lang_bytes(t));
        match string_from_utf8(bytes) {
            Some(l) => l,
            None => {
                return None;
            },
        }
    };
    // where the content starts: the byte offset of the first line's length
    proof {
        lemma_utf8_len_ge(t);
        lemma_utf8_len_split(cs@, lo as int, hi as int);
        assert(t.take(k as int).len() == k);
    }
    let target = base + k;
    let (j, acc) = advance_to(cs, lo, base, target, Ghost(hi as int));
    assert forall|m: int| 0 <= m <= t.len() implies (utf8_len(t.take(m)) == k <==> utf8_len(
        cs@.take(lo + m),
    ) == target) by {
        lemma_utf8_len_split(cs@, lo as int, lo + m);
        assert(t.take(m) =~= cs@.subrange(lo as int, lo + m));
    }
    if acc != target {
        assert forall|m: int| 0 <= m <= t.len() implies utf8_len(t.take(m)) != k by {
            if lo + m < j {
            } else {
                lemma_utf8_len_mono(cs@, j as int, lo + m);
            }
        }
        return None;
    }
    let ghost m0 = j - lo;
    assert(content_start(t) == Some(m0)) by {
        assert(utf8_len(t.take(m0)) == k);
        let m1 = choose|m: int| 0 <= m <= t.len() && utf8_len(t.take(m)) == first_line_len(t);
        if m1 < m0 {
            lemma_utf8_len_mono(cs@, lo + m1, j as int);
        } else if m1 > m0 {
            lemma_utf8_len_mono(cs@, j as int, lo + m1);
        }
    }
    // the content, escaped
    let mut content = String::new();
    push_range(&mut content, cs, j, hi);
    assert(content@ =~= t.skip(m0));
    let escaped = escape_attribute(content.as_str());
    let mut body = String::from_str("{ \"___PIPE___type\": \"embedded\", \"___PIPE___content\": \"");
    body.append(escaped.as_str());
    body.append("\", \"___PIPE___lang\": \"");
    body.append(lang.as_str());
    body.append("\"}");
    Some(body)
}

/// The text with each fenced block replaced by the object that stands for it; `None` where
/// taking a block apart fails.
#[verifier::spinoff_prover]
pub fn embed_text(content: &str) -> (r: Option<String>)
    ensures
        match r {
            Some(out) => embed_ok(content@) && out@ == embed(content@),
            None => !embed_ok(content@),
        },
{
    let ghost s = content@;
    let spans = fenced_block_spans(content);
    let cs = chars_of(content);
    let ghost blocks = blocks_from(s, 0);
    let mut result = String::new();
    let mut last: usize = 0;
    let mut last_byte: usize = 0;
    let mut k: usize = 0;
    assert(blocks.subrange(0, blocks.len() as int) =~= blocks);
    assert(result@ + embed_from(s, 0) =~= embed_from(s, 0));
    while k < spans.len()
        invariant
            s == content@,
            cs@ == s,
            blocks == blocks_from(s, 0),
            spans@.len() == blocks.len(),
            forall|i: int|
                0 <= i < spans@.len() ==> {
                    &&& spans@[i].0 == utf8_len(s.take(blocks[i].0))
                    &&& spans@[i].1 == utf8_len(s.take(blocks[i].1))
                },
            k <= spans@.len(),
            last <= s.len(),
            blocks.subrange(k as int, blocks.len() as int) == blocks_from(s, last as int),
            last_byte == utf8_len(s.take(last as int)),
            result@ + embed_from(s, last as int) == embed_from(s, 0),
            embed_ok_from(s, 0) == embed_ok_from(s, last as int),
        decreases spans@.len() - k,
    {
        let ghost rest = blocks_from(s, last as int);
        proof {
            lemma_block_from(s, last as int);
            assert(rest[0] == blocks[k as int]);
        }
        let ghost (p, e) = blocks[k as int];
        assert(block_from(s, last as int) == Some((p, e)));
        let (byte_p, byte_e) = spans[k];
        proof {
            lemma_utf8_len_mono(s, last as int, p);
            lemma_utf8_len_mono(s, p, e);
        }
        let (jp, _) = advance_to(&cs, last, last_byte, byte_p, Ghost(p));
        assert(jp == p) by {
            if jp < p {
                lemma_utf8_len_mono(s, jp as int, p);
            }
        }
        let (je, _) = advance_to(&cs, jp, byte_p, byte_e, Ghost(e));
        assert(je == e) by {
            if je < e {
                lemma_utf8_len_mono(s, je as int, e);
            }
        }
        let ghost before = result@;
        push_range(&mut result, &cs, last, jp);
        let lo = jp + 3;
        let hi = je - 3;
        let ghost t = s.subrange(lo as int, hi as int);
        proof {
            lemma_utf8_len_step(s, p);
            lemma_utf8_len_step(s, p + 1);
            lemma_utf8_len_step(s, p + 2);
            lemma_scalar_len('`');
            lemma_utf8_len_mono(s, lo as int, e);
            lemma_utf8_len_mono(s, hi as int, e);
        }
        assert(embed_ok_from(s, last as int) == (block_ok(t) && embed_ok_from(s, e)));
        let body = match block_text(&cs, lo, hi, byte_p + 3) {
            Some(b) => b,
            None => {
                return None;
            },
        };
        result.append(body.as_str());
        assert(embed_from(s, last as int) == s.subrange(last as int, p) + block_body(t)
            + embed_from(s, e));
        assert(result@ + embed_from(s, e) =~= before + embed_from(s, last as int)) by {
            assert(before + embed_from(s, last as int) =~= before + s.subrange(last as int, p)
                + block_body(t) + embed_from(s, e));
        }
        assert(blocks.subrange(k + 1, blocks.len() as int) =~= rest.drop_first());
        last = je;
        last_byte = byte_e;
        k = k + 1;
    }
    proof {
        lemma_block_from(s, last as int);
    }
    assert(block_from(s, last as int) is None);
    push_range(&mut result, &cs, last, cs.len());
    Some(result)
}

/// The characters of `s`, in order.
pub fn chars_of(s: &str) -> (r: Vec<char>)
    ensures
        r@ == s@,
{
    let mut out: Vec<char> = Vec::new();
    for c in iter: s.chars()
        invariant
            out@ == iter.seq().take(iter.index() as int),
    {
        out.push(c);
    }
    out
}

} // verus!
