//! Strings: equality, search for ASCII characters, splitting and joining.
//!
//! Contracts speak of a string as its sequence of characters. The code works
//! on the UTF-8 bytes; the lemmas here connect the two.
use std::sync::Arc;
use vstd::prelude::*;
use vstd::string::*;
use vstd::utf8::*;

verus! {

// ----------------------------------------------------------------------------
// Model
// ----------------------------------------------------------------------------

/// The characters of an optional shared string.
pub open spec fn opt_chars(o: Option<Arc<str>>) -> Option<Seq<char>> {
    match o {
        Some(s) => Some((*s)@),
        None => None,
    }
}

/// The position of the first `c` in `s`, or the length of `s` where it has none.
pub open spec fn first_index(s: Seq<char>, c: char) -> int
    decreases s.len(),
{
    if s.len() == 0 {
        0
    } else if s[0] == c {
        0
    } else {
        1 + first_index(s.drop_first(), c)
    }
}

/// The pieces of `s` between the separators `c`: always at least one piece.
pub open spec fn split_chars(s: Seq<char>, c: char) -> Seq<Seq<char>>
    decreases s.len(),
{
    let i = first_index(s, c);
    if i < 0 || i >= s.len() {
        seq![s]
    } else {
        seq![s.subrange(0, i)] + split_chars(s.subrange(i + 1, s.len() as int), c)
    }
}

/// The pieces joined with one separator between each two.
pub open spec fn join_chars(parts: Seq<Seq<char>>, c: char) -> Seq<char>
    decreases parts.len(),
{
    if parts.len() == 0 {
        seq![]
    } else if parts.len() == 1 {
        parts[0]
    } else {
        parts[0] + seq![c] + join_chars(parts.drop_first(), c)
    }
}

/// The levels of a topic name or topic filter.
pub open spec fn levels(s: Seq<char>) -> Seq<Seq<char>> {
    split_chars(s, '/')
}

/// The characters of each string of a list.
pub open spec fn all_chars(v: Seq<&str>) -> Seq<Seq<char>> {
    Seq::new(v.len(), |i: int| v[i]@)
}

// ----------------------------------------------------------------------------
// Lemmas on characters
// ----------------------------------------------------------------------------

pub proof fn lemma_first_index(s: Seq<char>, c: char)
    ensures
        0 <= first_index(s, c) <= s.len(),
        first_index(s, c) < s.len() ==> s[first_index(s, c)] == c,
        first_index(s, c) < s.len() <==> s.contains(c),
        forall|j: int| 0 <= j < first_index(s, c) ==> s[j] != c,
    decreases s.len(),
{
    if s.len() == 0 {
    } else if s[0] == c {
        assert(s.contains(c));
    } else {
        let t = s.drop_first();
        lemma_first_index(t, c);
        assert forall|j: int| 0 <= j < first_index(s, c) implies s[j] != c by {
            if j > 0 {
                assert(t[j - 1] != c);
            }
        }
        if s.contains(c) {
            let k = choose|k: int| 0 <= k < s.len() && s[k] == c;
            assert(t[k - 1] == c);
            assert(t.contains(c));
        }
        if first_index(s, c) < s.len() {
            assert(s[first_index(s, c)] == c);
        }
    }
}

/// A position that is the first of its character is `first_index`.
pub proof fn lemma_first_index_unique(s: Seq<char>, c: char, i: int)
    requires
        0 <= i <= s.len(),
        i < s.len() ==> s[i] == c,
        forall|j: int| 0 <= j < i ==> s[j] != c,
    ensures
        first_index(s, c) == i,
{
    lemma_first_index(s, c);
}

/// Splitting gives at least one piece, and no piece holds the separator.
pub proof fn lemma_split_pieces(s: Seq<char>, c: char)
    ensures
        split_chars(s, c).len() >= 1,
        forall|k: int|
            0 <= k < split_chars(s, c).len() ==> !(#[trigger] split_chars(s, c)[k]).contains(c),
    decreases s.len(),
{
    lemma_first_index(s, c);
    let i = first_index(s, c);
    if i < s.len() {
        let rest = s.subrange(i + 1, s.len() as int);
        lemma_split_pieces(rest, c);
        let whole = split_chars(s, c);
        assert forall|k: int| 0 <= k < whole.len() implies !(#[trigger] whole[k]).contains(c) by {
            if k == 0 {
                assert(whole[0] == s.subrange(0, i));
                if whole[0].contains(c) {
                    let j = choose|j: int| 0 <= j < whole[0].len() && whole[0][j] == c;
                    assert(s[j] == c);
                }
            } else {
                assert(whole[k] == split_chars(rest, c)[k - 1]);
            }
        }
    } else {
        assert(split_chars(s, c)[0] == s);
    }
}

/// Joining the pieces of a split gives the text back.
pub proof fn lemma_join_split(s: Seq<char>, c: char)
    ensures
        join_chars(split_chars(s, c), c) == s,
    decreases s.len(),
{
    lemma_first_index(s, c);
    let i = first_index(s, c);
    if i < s.len() {
        let rest = s.subrange(i + 1, s.len() as int);
        lemma_join_split(rest, c);
        lemma_split_pieces(rest, c);
        let whole = split_chars(s, c);
        assert(whole.drop_first() =~= split_chars(rest, c));
        assert(s =~= s.subrange(0, i) + seq![c] + rest);
    } else {
        assert(split_chars(s, c) =~= seq![s]);
    }
}

/// Splitting a join gives the pieces back, where no piece holds the separator.
pub proof fn lemma_split_join(parts: Seq<Seq<char>>, c: char)
    requires
        parts.len() >= 1,
        forall|k: int| 0 <= k < parts.len() ==> !(#[trigger] parts[k]).contains(c),
    ensures
        split_chars(join_chars(parts, c), c) == parts,
    decreases parts.len(),
{
    let s = join_chars(parts, c);
    let p = parts[0];
    assert(!parts[0].contains(c));
    assert forall|j: int| 0 <= j < p.len() implies p[j] != c by {
        if p[j] == c {
            assert(p.contains(c));
        }
    }
    if parts.len() == 1 {
        lemma_first_index_unique(s, c, s.len() as int);
        assert(split_chars(s, c) =~= parts);
    } else {
        let tail = parts.drop_first();
        assert forall|k: int| 0 <= k < tail.len() implies !(#[trigger] tail[k]).contains(c) by {
            assert(tail[k] == parts[k + 1]);
        }
        lemma_split_join(tail, c);
        let i = p.len() as int;
        assert(s[i] == c);
        assert forall|j: int| 0 <= j < i implies s[j] != c by {
            assert(s[j] == p[j]);
        }
        lemma_first_index_unique(s, c, i);
        assert(s.subrange(0, i) =~= p);
        assert(s.subrange(i + 1, s.len() as int) =~= join_chars(tail, c));
        assert(split_chars(s, c) =~= parts);
    }
}

// ----------------------------------------------------------------------------
// Lemmas on UTF-8
// ----------------------------------------------------------------------------

/// The encoding of a concatenation is the concatenation of the encodings.
pub proof fn lemma_encode_concat(a: Seq<char>, b: Seq<char>)
    ensures
        encode_utf8(a + b) == encode_utf8(a) + encode_utf8(b),
    decreases a.len(),
{
    if a.len() == 0 {
        assert(a + b =~= b);
        assert(encode_utf8(a) + encode_utf8(b) =~= encode_utf8(b));
    } else {
        lemma_encode_concat(a.drop_first(), b);
        assert((a + b).drop_first() =~= a.drop_first() + b);
        assert((a + b)[0] == a[0]);
        assert(encode_utf8(a + b) =~= encode_utf8(a) + encode_utf8(b));
    }
}

proof fn lemma_wide_bytes(v: u32)
    by (bit_vector)
    requires
        v <= 0x10FFFF,
    ensures
        leading_byte_width_2(v) >= 0x80,
        leading_byte_width_3(v) >= 0x80,
        leading_byte_width_4(v) >= 0x80,
        last_continuation_byte(v) >= 0x80,
        second_last_continuation_byte(v) >= 0x80,
        third_last_continuation_byte(v) >= 0x80,
{
}

proof fn lemma_ascii_byte(v: u32)
    by (bit_vector)
    requires
        v <= 0x7F,
    ensures
        leading_byte_width_1(v) == v,
{
}

/// An ASCII character is encoded as the one byte of its value; every byte of
/// another character's encoding is 0x80 or more.
proof fn lemma_encode_one(c: char)
    ensures
        (c as u32) <= 0x7F ==> encode_scalar(c as u32) == seq![c as u8],
        (c as u32) > 0x7F ==> forall|j: int|
            0 <= j < encode_scalar(c as u32).len() ==> #[trigger] encode_scalar(c as u32)[j] >= 0x80,
        encode_scalar(c as u32).len() >= 1,
        (c as u32) <= 0x7F ==> (c as u8) as int == c as int,
{
    char_is_scalar(c);
    let v = c as u32;
    if v <= 0x7F {
        lemma_ascii_byte(v);
        assert(encode_scalar(v) =~= seq![c as u8]);
    } else {
        lemma_wide_bytes(v);
    }
}

/// An ASCII character occurs in a text exactly where its byte occurs in the
/// text's encoding.
pub proof fn lemma_ascii_contains(s: Seq<char>, c: char)
    requires
        (c as u32) <= 0x7F,
    ensures
        s.contains(c) <==> encode_utf8(s).contains(c as u8),
    decreases s.len(),
{
    if s.len() == 0 {
    } else {
        let t = s.drop_first();
        lemma_ascii_contains(t, c);
        lemma_encode_one(s[0]);
        let h = encode_scalar(s[0] as u32);
        assert(encode_utf8(s) == h + encode_utf8(t));
        if s.contains(c) {
            if s[0] == c {
                assert(encode_utf8(s)[0] == c as u8);
            } else {
                let k = choose|k: int| 0 <= k < s.len() && s[k] == c;
                assert(t[k - 1] == c);
                assert(t.contains(c));
                let m = choose|m: int|
                    0 <= m < encode_utf8(t).len() && encode_utf8(t)[m] == c as u8;
                assert(encode_utf8(s)[h.len() + m] == c as u8);
            }
        }
        if encode_utf8(s).contains(c as u8) {
            let k = choose|k: int| 0 <= k < encode_utf8(s).len() && encode_utf8(s)[k] == c as u8;
            if k < h.len() {
                assert(h[k] == c as u8);
                assert((s[0] as u32) <= 0x7F);
                assert(h == seq![s[0] as u8]);
                assert(s[0] == c);
            } else {
                assert(encode_utf8(t)[k - h.len()] == c as u8);
                assert(t.contains(c));
                let m = choose|m: int| 0 <= m < t.len() && t[m] == c;
                assert(s[m + 1] == c);
            }
        }
    }
}

/// A text split around the first occurrence of an ASCII character: the byte
/// position of that occurrence is the length of the encoding before it.
pub proof fn lemma_encode_around(s: Seq<char>, c: char, i: int)
    requires
        (c as u32) <= 0x7F,
        0 <= i < s.len(),
        s[i] == c,
    ensures
        encode_utf8(s) == encode_utf8(s.subrange(0, i)) + seq![c as u8] + encode_utf8(
            s.subrange(i + 1, s.len() as int),
        ),
{
    let a = s.subrange(0, i);
    let b = s.subrange(i + 1, s.len() as int);
    assert(s =~= a + (seq![c] + b));
    lemma_encode_concat(a, seq![c] + b);
    lemma_encode_concat(seq![c], b);
    lemma_encode_one(c);
    assert(seq![c].drop_first() =~= Seq::<char>::empty());
    assert(encode_utf8(seq![c]) =~= seq![c as u8]) by {
        assert(encode_utf8(seq![c]) == encode_scalar(c as u32) + encode_utf8(
            seq![c].drop_first(),
        ));
    }
    assert(encode_utf8(s) =~= encode_utf8(a) + seq![c as u8] + encode_utf8(b));
}

/// Two texts with the same encoding are the same text.
pub proof fn lemma_encode_injective(a: Seq<char>, b: Seq<char>)
    requires
        encode_utf8(a) == encode_utf8(b),
    ensures
        a == b,
{
    encode_utf8_decode_utf8(a);
    encode_utf8_decode_utf8(b);
}

/// A text is no longer than its encoding, and empty with it.
pub proof fn lemma_encode_len(s: Seq<char>)
    ensures
        s.len() <= encode_utf8(s).len(),
        s.len() == 0 <==> encode_utf8(s).len() == 0,
    decreases s.len(),
{
    if s.len() > 0 {
        lemma_encode_one(s[0]);
        lemma_encode_len(s.drop_first());
    }
}

// ----------------------------------------------------------------------------
// Calls into std
// ----------------------------------------------------------------------------

/// `std::sync::Arc::<str>::from`: a shared copy of the text.
#[verifier::external_body]
pub(crate) fn shared(s: &str) -> (r: Arc<str>)
    ensures
        (*r)@ == s@,
{
    Arc::from(s)
}

/// `std::str::from_utf8`: the text that the bytes encode, or nothing where they
/// are not valid UTF-8.
#[verifier::external_body]
pub(crate) fn utf8_text(b: &[u8]) -> (r: Option<&str>)
    ensures
        r is Some <==> valid_utf8(b@),
        r matches Some(s) ==> encode_utf8(s@) == b@,
{
    std::str::from_utf8(b).ok()
}

// ----------------------------------------------------------------------------
// Executable functions
// ----------------------------------------------------------------------------

/// Whether two slices hold the same bytes.
pub fn bytes_eq(a: &[u8], b: &[u8]) -> (r: bool)
    ensures
        r == (a@ == b@),
{
    if a.len() != b.len() {
        return false;
    }
    let mut i: usize = 0;
    while i < a.len()
        invariant
            a@.len() == b@.len(),
            i <= a@.len(),
            forall|j: int| 0 <= j < i ==> a@[j] == b@[j],
        decreases a@.len() - i,
    {
        if a[i] != b[i] {
            return false;
        }
        i += 1;
    }
    assert(a@ =~= b@);
    true
}

/// Whether two strings are the same text.
pub fn str_eq(a: &str, b: &str) -> (r: bool)
    ensures
        r == (a@ == b@),
{
    proof {
        encode_utf8_decode_utf8(a@);
        encode_utf8_decode_utf8(b@);
    }
    bytes_eq(a.as_bytes(), b.as_bytes())
}

/// Whether two optional strings are both absent, or the same text.
pub fn opt_str_eq(a: &Option<Arc<str>>, b: &Option<Arc<str>>) -> (r: bool)
    ensures
        r == (opt_chars(*a) == opt_chars(*b)),
{
    match (a, b) {
        (Some(x), Some(y)) => str_eq(x, y),
        (None, None) => true,
        _ => false,
    }
}

/// The text of an optional reference to a shared text.
pub open spec fn opt_ref_chars(o: Option<&Arc<str>>) -> Option<Seq<char>> {
    match o {
        Some(a) => Some((**a)@),
        None => None,
    }
}

/// A second handle on what an optional reference refers to.
pub fn cloned_opt(a: Option<&Arc<str>>) -> (r: Option<Arc<str>>)
    ensures
        opt_chars(r) == opt_ref_chars(a),
{
    match a {
        Some(x) => Some(x.clone()),
        None => None,
    }
}

/// An optional text by reference.
pub fn opt_as_ref<'a>(a: &'a Option<Arc<str>>) -> (r: Option<&'a Arc<str>>)
    ensures
        opt_ref_chars(r) == opt_chars(*a),
{
    match a {
        Some(x) => Some(x),
        None => None,
    }
}

/// A second handle on an optional shared string.
pub fn clone_opt(a: &Option<Arc<str>>) -> (r: Option<Arc<str>>)
    ensures
        r == *a,
{
    match a {
        Some(s) => Some(s.clone()),
        None => None,
    }
}

/// The position of the first byte `x`, or the length of the slice.
pub fn find_byte(b: &[u8], x: u8) -> (r: usize)
    ensures
        r <= b@.len(),
        r < b@.len() ==> b@[r as int] == x,
        forall|j: int| 0 <= j < r ==> b@[j] != x,
{
    let mut i: usize = 0;
    while i < b.len()
        invariant
            i <= b@.len(),
            forall|j: int| 0 <= j < i ==> b@[j] != x,
        decreases b@.len() - i,
    {
        if b[i] == x {
            return i;
        }
        i += 1;
    }
    i
}

/// The byte of an ASCII character.
pub open spec fn ascii(x: u8) -> char {
    x as char
}

/// Whether the text holds the ASCII character `x`.
pub fn contains_ascii(s: &str, x: u8) -> (r: bool)
    requires
        x <= 0x7F,
    ensures
        r == s@.contains(ascii(x)),
{
    let b = s.as_bytes();
    let i: usize = find_byte(b, x);
    proof {
        lemma_ascii_contains(s@, ascii(x));
        if i < b@.len() {
            assert(b@.contains(x));
        } else if b@.contains(x) {
            let k = choose|k: int| 0 <= k < b@.len() && b@[k] == x;
            assert(b@[k] != x);
        }
    }
    i < b.len()
}

/// Whether the text starts with the ASCII character `x`.
pub fn starts_with_ascii(s: &str, x: u8) -> (r: bool)
    requires
        x <= 0x7F,
    ensures
        r == (s@.len() > 0 && s@[0] == ascii(x)),
{
    let b = s.as_bytes();
    proof {
        lemma_encode_len(s@);
        if s@.len() > 0 {
            lemma_encode_one(s@[0]);
            let h = encode_scalar(s@[0] as u32);
            assert(b@[0] == h[0]);
            assert((x as char) as int == x as int);
        }
    }
    b.len() > 0 && b[0] == x
}

/// The text before the first `x` and the text behind it, or nothing where the
/// text holds no `x`.
pub fn split_once_ascii<'a>(s: &'a str, x: u8) -> (r: Option<(&'a str, &'a str)>)
    requires
        x <= 0x7F,
    ensures
        r is Some <==> s@.contains(ascii(x)),
        r matches Some((head, tail)) ==> {
            let i = first_index(s@, ascii(x));
            &&& head@ == s@.subrange(0, i)
            &&& tail@ == s@.subrange(i + 1, s@.len() as int)
        },
{
    let b = s.as_bytes();
    let n: usize = find_byte(b, x);
    let ghost c = ascii(x);
    let ghost i = first_index(s@, c);
    proof {
        lemma_first_index(s@, c);
        lemma_ascii_contains(s@, c);
        encode_utf8_valid_utf8(s@);
    }
    if n == b.len() {
        proof {
            if b@.contains(x) {
                let k = choose|k: int| 0 <= k < b@.len() && b@[k] == x;
                assert(b@[k] != x);
            }
        }
        return None;
    }
    proof {
        assert(b@.contains(x));
        lemma_encode_around(s@, c, i);
        let pre = s@.subrange(0, i);
        let post = s@.subrange(i + 1, s@.len() as int);
        // No byte of the encoding before the character is `x`, so `n` is its length.
        lemma_ascii_contains(pre, c);
        assert(!pre.contains(c)) by {
            if pre.contains(c) {
                let j = choose|j: int| 0 <= j < pre.len() && pre[j] == c;
                assert(s@[j] == c);
            }
        }
        let m = encode_utf8(pre).len() as int;
        assert(b@[m] == x);
        assert(n <= m);
        if n < m {
            assert(encode_utf8(pre)[n as int] == x);
            assert(encode_utf8(pre).contains(x));
        }
        assert(n == m);
        is_char_boundary_iff_not_is_continuation_byte(b@, n as int);
        assert(b@.subrange(0, m) =~= encode_utf8(pre));
        assert(b@.subrange(m, b@.len() as int) =~= seq![x] + encode_utf8(post));
    }
    let (head, rest) = s.split_at(n);
    proof {
        let post = s@.subrange(i + 1, s@.len() as int);
        let rb = rest.spec_bytes();
        encode_utf8_valid_utf8(rest@);
        is_char_boundary_start_end_of_seq(rb);
        if rb.len() > 1 {
            encode_utf8_valid_utf8(post);
            is_char_boundary_start_end_of_seq(encode_utf8(post));
            assert(encode_utf8(post)[0] == rb[1]);
            is_char_boundary_iff_not_is_continuation_byte(encode_utf8(post), 0);
            is_char_boundary_iff_not_is_continuation_byte(rb, 1);
        }
    }
    let (_sep, tail) = rest.split_at(1);
    proof {
        let pre = s@.subrange(0, i);
        let post = s@.subrange(i + 1, s@.len() as int);
        lemma_encode_injective(head@, pre);
        assert(tail.spec_bytes() =~= encode_utf8(post));
        lemma_encode_injective(tail@, post);
    }
    Some((head, tail))
}

/// The pieces of the text between the ASCII separators `x`.
pub fn split_ascii<'a>(s: &'a str, x: u8) -> (r: Vec<&'a str>)
    requires
        x <= 0x7F,
    ensures
        all_chars(r@) == split_chars(s@, ascii(x)),
        r@.len() >= 1,
{
    let ghost c = ascii(x);
    let mut out: Vec<&'a str> = Vec::new();
    let mut rest: &'a str = s;
    proof {
        lemma_split_pieces(s@, c);
        assert(all_chars(out@) + split_chars(rest@, c) =~= split_chars(s@, c));
    }
    loop
        invariant
            x <= 0x7F,
            c == ascii(x),
            all_chars(out@) + split_chars(rest@, c) == split_chars(s@, c),
        decreases rest@.len(),
    {
        let ghost before = out@;
        let ghost text = rest@;
        proof {
            lemma_first_index(text, c);
        }
        match split_once_ascii(rest, x) {
            None => {
                out.push(rest);
                proof {
                    assert(split_chars(text, c) =~= seq![text]);
                    assert(all_chars(out@) =~= all_chars(before) + seq![text]);
                }
                return out;
            },
            Some((head, tail)) => {
                out.push(head);
                rest = tail;
                proof {
                    assert(all_chars(out@) =~= all_chars(before) + seq![head@]);
                    assert(split_chars(text, c) =~= seq![head@] + split_chars(tail@, c));
                    assert(all_chars(out@) + split_chars(rest@, c) =~= all_chars(before)
                        + split_chars(text, c));
                }
            },
        }
    }
}

/// A decimal digit.
pub open spec fn digit(d: int) -> char {
    if d == 0 {
        '0'
    } else if d == 1 {
        '1'
    } else if d == 2 {
        '2'
    } else if d == 3 {
        '3'
    } else if d == 4 {
        '4'
    } else if d == 5 {
        '5'
    } else if d == 6 {
        '6'
    } else if d == 7 {
        '7'
    } else if d == 8 {
        '8'
    } else {
        '9'
    }
}

/// A number in decimal digits.
pub open spec fn decimal(n: nat) -> Seq<char>
    decreases n,
{
    if n < 10 {
        seq![digit(n as int)]
    } else {
        decimal(n / 10).push(digit(n as int % 10))
    }
}

fn digit_text(d: u64) -> (r: &'static str)
    requires
        d < 10,
    ensures
        r@ == seq![digit(d as int)],
{
    proof {
        reveal_strlit("0");
        reveal_strlit("1");
        reveal_strlit("2");
        reveal_strlit("3");
        reveal_strlit("4");
        reveal_strlit("5");
        reveal_strlit("6");
        reveal_strlit("7");
        reveal_strlit("8");
        reveal_strlit("9");
    }
    let r = match d {
        0 => "0",
        1 => "1",
        2 => "2",
        3 => "3",
        4 => "4",
        5 => "5",
        6 => "6",
        7 => "7",
        8 => "8",
        _ => "9",
    };
    assert(r@ =~= seq![digit(d as int)]);
    r
}

/// A number in decimal digits.
pub fn decimal_text(n: u64) -> (r: String)
    ensures
        r@ == decimal(n as nat),
    decreases n,
{
    if n < 10 {
        digit_text(n).to_owned()
    } else {
        let mut r: String = decimal_text(n / 10);
        let last = digit_text(n % 10);
        r.append(last);
        assert(r@ =~= decimal((n / 10) as nat).push(digit(n as int % 10)));
        r
    }
}

} // verus!
