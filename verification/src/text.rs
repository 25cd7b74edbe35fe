//! Byte-level text primitives: every `&str` is modelled by its UTF-8 bytes
//! (`s.spec_bytes()`), and every `String` by the UTF-8 encoding of its view.
use vstd::prelude::*;
use vstd::utf8::*;
use vstd::string::*;

verus! {

/// The UTF-8 bytes of an owned string.
pub open spec fn bytes_of(s: String) -> Seq<u8> {
    encode_utf8(s@)
}

/// Index `i` starts a character of `b` (or is its end), given valid UTF-8.
pub open spec fn at_boundary(b: Seq<u8>, i: int) -> bool {
    i == b.len() || (0 <= i < b.len() && !is_continuation_byte(b[i]))
}

pub proof fn lemma_at_boundary_is_char_boundary(b: Seq<u8>, i: int)
    requires
        valid_utf8(b),
        at_boundary(b, i),
    ensures
        is_char_boundary(b, i),
{
    if i == b.len() {
        is_char_boundary_start_end_of_seq(b);
    } else {
        is_char_boundary_iff_not_is_continuation_byte(b, i);
    }
}

/// The character that starts at a boundary is well formed, and the index just
/// past it is a boundary again.
pub proof fn lemma_next_boundary(b: Seq<u8>, i: int)
    requires
        valid_utf8(b),
        at_boundary(b, i),
        0 <= i < b.len(),
    ensures
        valid_first_scalar(b.subrange(i, b.len() as int)),
        1 <= length_of_first_scalar(b.subrange(i, b.len() as int)),
        i + length_of_first_scalar(b.subrange(i, b.len() as int)) <= b.len(),
        at_boundary(b, i + length_of_first_scalar(b.subrange(i, b.len() as int))),
{
    lemma_at_boundary_is_char_boundary(b, i);
    valid_utf8_split(b, i);
    let s = b.subrange(i, b.len() as int);
    assert(valid_utf8(s));
    assert(valid_first_scalar(s));
    let k = length_of_first_scalar(s);
    assert(1 <= k <= s.len());
    let p = pop_first_scalar(s);
    assert(valid_utf8(p));
    if i + k < b.len() {
        assert(p.len() > 0);
        assert(valid_first_scalar(p));
        assert(p[0] == b[i + k]);
    }
}

/// An ASCII byte at a boundary is a whole character.
pub proof fn lemma_ascii_step(b: Seq<u8>, i: int)
    requires
        valid_utf8(b),
        at_boundary(b, i),
        0 <= i < b.len(),
        b[i] < 0x80,
    ensures
        at_boundary(b, i + 1),
{
    lemma_next_boundary(b, i);
    assert(b.subrange(i, b.len() as int)[0] == b[i]);
}

/// A match of valid UTF-8 `p` at a boundary of valid UTF-8 `s` ends at a boundary.
pub proof fn lemma_match_end_boundary(s: Seq<u8>, p: Seq<u8>, i: int)
    requires
        valid_utf8(s),
        valid_utf8(p),
        at_boundary(s, i),
        0 <= i,
        i + p.len() <= s.len(),
        s.subrange(i, i + p.len()) == p,
    ensures
        at_boundary(s, i + p.len()),
    decreases p.len(),
{
    if p.len() > 0 {
        lemma_next_boundary(s, i);
        let t = s.subrange(i, s.len() as int);
        let k = length_of_first_scalar(t);
        assert(valid_first_scalar(p));
        assert(p[0] == t[0]);
        assert(length_of_first_scalar(p) == k);
        let q = pop_first_scalar(p);
        assert(valid_utf8(q));
        assert(q =~= s.subrange(i + k, i + p.len()));
        lemma_match_end_boundary(s, q, i + k);
    }
}

/// A non-empty character sequence has a non-empty encoding.
pub proof fn lemma_encode_nonempty(c: Seq<char>)
    requires
        c.len() > 0,
    ensures
        encode_utf8(c).len() > 0,
{
    assert(encode_utf8(c) == encode_scalar(c[0] as u32) + encode_utf8(c.drop_first()));
}

/// A match of a non-empty valid UTF-8 pattern starts at a boundary.
pub proof fn lemma_match_start_boundary(s: Seq<u8>, p: Seq<u8>, i: int)
    requires
        valid_utf8(p),
        p.len() > 0,
        matches_at(s, p, i),
    ensures
        at_boundary(s, i),
{
    assert(valid_first_scalar(p));
    assert(s.subrange(i, i + p.len())[0] == s[i]);
}

pub proof fn lemma_str_valid(s: &str)
    ensures
        valid_utf8(s.spec_bytes()),
        at_boundary(s.spec_bytes(), 0),
        at_boundary(s.spec_bytes(), s.spec_bytes().len() as int),
{
    encode_utf8_valid_utf8(s@);
    let b = s.spec_bytes();
    if b.len() > 0 {
        assert(valid_first_scalar(b));
    }
}


/// The sub-slice of `s` between two character boundaries.
pub fn substr(s: &str, from: usize, to: usize) -> (r: &str)
    requires
        from <= to <= s.spec_bytes().len(),
        at_boundary(s.spec_bytes(), from as int),
        at_boundary(s.spec_bytes(), to as int),
    ensures
        r.spec_bytes() == s.spec_bytes().subrange(from as int, to as int),
{
    let ghost b = s.spec_bytes();
    proof {
        lemma_str_valid(s);
        lemma_at_boundary_is_char_boundary(b, to as int);
    }
    let (head, _tail) = s.split_at(to);
    proof {
        let h = head.spec_bytes();
        assert(h =~= b.subrange(0, to as int));
        lemma_str_valid(head);
        if from < to {
            assert(h[from as int] == b[from as int]);
        }
        lemma_at_boundary_is_char_boundary(h, from as int);
    }
    let (_front, mid) = head.split_at(from);
    proof {
        assert(mid.spec_bytes() =~= b.subrange(from as int, to as int));
    }
    mid
}

/// The owned copy of a string slice.
pub fn owned(s: &str) -> (r: String)
    ensures
        r@ == s@,
        bytes_of(r) == s.spec_bytes(),
{
    s.to_owned()
}

/// The `usize` option as an `int` option.
pub open spec fn opt_int(o: Option<usize>) -> Option<int> {
    match o {
        Some(i) => Some(i as int),
        None => None,
    }
}

/// True when `p` occurs in `h` starting at byte index `i`.
pub open spec fn matches_at(h: Seq<u8>, p: Seq<u8>, i: int) -> bool {
    0 <= i && i + p.len() <= h.len() && h.subrange(i, i + p.len()) == p
}

/// The first index at or after `from` where `p` occurs in `h`.
pub open spec fn find_from(h: Seq<u8>, p: Seq<u8>, from: int) -> Option<int>
    decreases h.len() + 1 - from,
{
    if from < 0 || from + p.len() > h.len() {
        None
    } else if matches_at(h, p, from) {
        Some(from)
    } else {
        find_from(h, p, from + 1)
    }
}

/// `h` begins with `p`.
pub open spec fn starts_with(h: Seq<u8>, p: Seq<u8>) -> bool {
    matches_at(h, p, 0)
}

/// `p` occurs somewhere in `h`.
pub open spec fn contains(h: Seq<u8>, p: Seq<u8>) -> bool {
    find_from(h, p, 0) is Some
}

pub proof fn lemma_find_from_props(h: Seq<u8>, p: Seq<u8>, from: int)
    ensures
        find_from(h, p, from) matches Some(i) ==> from <= i && matches_at(h, p, i) && forall|j: int|
            from <= j < i ==> !#[trigger] matches_at(h, p, j),
        find_from(h, p, from) is None ==> forall|j: int| 0 <= from <= j ==> !#[trigger] matches_at(h, p, j),
    decreases h.len() + 1 - from,
{
    if from < 0 || from + p.len() > h.len() {
    } else if matches_at(h, p, from) {
    } else {
        lemma_find_from_props(h, p, from + 1);
    }
}

/// Whether `p` occurs in `h` at index `i`.
pub fn bytes_match_at(h: &[u8], p: &[u8], i: usize) -> (r: bool)
    ensures
        r == matches_at(h@, p@, i as int),
{
    if p.len() > h.len() || i > h.len() - p.len() {
        return false;
    }
    let mut k: usize = 0;
    while k < p.len()
        invariant
            i + p.len() <= h.len(),
            k <= p.len(),
            forall|j: int| 0 <= j < k ==> h@[i + j] == p@[j],
        decreases p@.len() - k,
    {
        if h[i + k] != p[k] {
            assert(h@.subrange(i as int, i + p@.len())[k as int] != p@[k as int]);
            return false;
        }
        k = k + 1;
    }
    assert(h@.subrange(i as int, i + p@.len()) =~= p@);
    true
}

/// The first occurrence of `p` in `h` at or after `from`.
pub fn find_bytes(h: &[u8], p: &[u8], from: usize) -> (r: Option<usize>)
    ensures
        opt_int(r) == find_from(h@, p@, from as int),
{
    if p.len() > h.len() || from > h.len() - p.len() {
        return None;
    }
    if p.len() == 0 {
        assert(h@.subrange(from as int, from as int) =~= p@);
        return Some(from);
    }
    let mut i: usize = from;
    while i <= h.len() - p.len()
        invariant
            1 <= p.len() <= h.len(),
            from <= i <= h.len() - p.len() + 1,
            find_from(h@, p@, from as int) == find_from(h@, p@, i as int),
        decreases h@.len() - p@.len() + 1 - i,
    {
        if bytes_match_at(h, p, i) {
            return Some(i);
        }
        i = i + 1;
    }
    None
}

/// `c` with ASCII upper-case letters mapped to lower case.
pub open spec fn ascii_lower(c: u8) -> u8 {
    if 0x41 <= c <= 0x5a {
        (c + 32) as u8
    } else {
        c
    }
}

/// `a` and `b` are equal when ASCII letters are compared case-insensitively.
pub open spec fn eq_ignore_ascii_case(a: Seq<u8>, b: Seq<u8>) -> bool {
    a.len() == b.len() && forall|i: int| 0 <= i < a.len() ==> ascii_lower(#[trigger] a[i]) == ascii_lower(b[i])
}

pub fn bytes_eq_ignore_ascii_case(a: &[u8], b: &[u8]) -> (r: bool)
    ensures
        r == eq_ignore_ascii_case(a@, b@),
{
    if a.len() != b.len() {
        return false;
    }
    let mut i: usize = 0;
    while i < a.len()
        invariant
            a@.len() == b@.len(),
            i <= a@.len(),
            forall|j: int| 0 <= j < i ==> ascii_lower(#[trigger] a@[j]) == ascii_lower(b@[j]),
        decreases a@.len() - i,
    {
        let x = a[i];
        let y = b[i];
        let lx: u8 = if 0x41 <= x && x <= 0x5a {
            x + 32
        } else {
            x
        };
        let ly: u8 = if 0x41 <= y && y <= 0x5a {
            y + 32
        } else {
            y
        };
        if lx != ly {
            return false;
        }
        i = i + 1;
    }
    true
}

/// `p` occurs in `h` at byte index `i`, ASCII letters compared case-insensitively.
pub open spec fn matches_at_ic(h: Seq<u8>, p: Seq<u8>, i: int) -> bool {
    0 <= i && i + p.len() <= h.len() && eq_ignore_ascii_case(h.subrange(i, i + p.len()), p)
}

/// The first index at or after `from` where `p` occurs in `h`, ASCII letters
/// compared case-insensitively.
pub open spec fn find_from_ic(h: Seq<u8>, p: Seq<u8>, from: int) -> Option<int>
    decreases h.len() + 1 - from,
{
    if from < 0 || from + p.len() > h.len() {
        None
    } else if matches_at_ic(h, p, from) {
        Some(from)
    } else {
        find_from_ic(h, p, from + 1)
    }
}

pub proof fn lemma_find_from_ic_props(h: Seq<u8>, p: Seq<u8>, from: int)
    ensures
        find_from_ic(h, p, from) matches Some(i) ==> from <= i && matches_at_ic(h, p, i),
    decreases h.len() + 1 - from,
{
    if from < 0 || from + p.len() > h.len() {
    } else if matches_at_ic(h, p, from) {
    } else {
        lemma_find_from_ic_props(h, p, from + 1);
    }
}

/// Whether `p` occurs in `h` at index `i`, ignoring ASCII case.
pub fn bytes_match_at_ic(h: &[u8], p: &[u8], i: usize) -> (r: bool)
    ensures
        r == matches_at_ic(h@, p@, i as int),
{
    if p.len() > h.len() || i > h.len() - p.len() {
        return false;
    }
    let mut k: usize = 0;
    while k < p.len()
        invariant
            i + p.len() <= h.len(),
            k <= p.len(),
            forall|j: int| 0 <= j < k ==> ascii_lower(#[trigger] h@[i + j]) == ascii_lower(p@[j]),
        decreases p@.len() - k,
    {
        let x = h[i + k];
        let y = p[k];
        let lx: u8 = if 0x41 <= x && x <= 0x5a {
            x + 32
        } else {
            x
        };
        let ly: u8 = if 0x41 <= y && y <= 0x5a {
            y + 32
        } else {
            y
        };
        if lx != ly {
            assert(h@.subrange(i as int, i + p@.len())[k as int] == x);
            return false;
        }
        k = k + 1;
    }
    proof {
        let sub = h@.subrange(i as int, i + p@.len());
        assert forall|j: int| 0 <= j < sub.len() implies ascii_lower(#[trigger] sub[j]) == ascii_lower(p@[j]) by {
            assert(sub[j] == h@[i + j]);
        }
    }
    true
}

/// The first occurrence of `p` in `h` at or after `from`, ignoring ASCII case.
pub fn find_bytes_ic(h: &[u8], p: &[u8], from: usize) -> (r: Option<usize>)
    ensures
        opt_int(r) == find_from_ic(h@, p@, from as int),
{
    if p.len() > h.len() || from > h.len() - p.len() {
        return None;
    }
    if p.len() == 0 {
        assert(h@.subrange(from as int, from as int) =~= p@);
        return Some(from);
    }
    let mut i: usize = from;
    while i <= h.len() - p.len()
        invariant
            1 <= p.len() <= h.len(),
            from <= i <= h.len() - p.len() + 1,
            find_from_ic(h@, p@, from as int) == find_from_ic(h@, p@, i as int),
        decreases h@.len() - p@.len() + 1 - i,
    {
        if bytes_match_at_ic(h, p, i) {
            return Some(i);
        }
        i = i + 1;
    }
    None
}

/// The byte is a single or double quote.
pub open spec fn is_quote(c: u8) -> bool {
    c == 0x22 || c == 0x27
}

/// The first index at or after `from` holding a single or double quote.
pub open spec fn find_quote_from(h: Seq<u8>, from: int) -> Option<int>
    decreases h.len() - from,
{
    if from < 0 || from >= h.len() {
        None
    } else if is_quote(h[from]) {
        Some(from)
    } else {
        find_quote_from(h, from + 1)
    }
}

pub proof fn lemma_find_quote_props(h: Seq<u8>, from: int)
    ensures
        find_quote_from(h, from) matches Some(i) ==> 0 <= from <= i < h.len() && is_quote(h[i]),
    decreases h.len() - from,
{
    if 0 <= from < h.len() && !is_quote(h[from]) {
        lemma_find_quote_props(h, from + 1);
    }
}

/// The first single or double quote in `h` at or after `from`.
pub fn find_quote(h: &[u8], from: usize) -> (r: Option<usize>)
    ensures
        opt_int(r) == find_quote_from(h@, from as int),
{
    let mut i: usize = from;
    while i < h.len()
        invariant
            from <= i,
            find_quote_from(h@, from as int) == find_quote_from(h@, i as int),
        decreases h@.len() - i,
    {
        if h[i] == 0x22 || h[i] == 0x27 {
            return Some(i);
        }
        i = i + 1;
    }
    None
}

/// The first index at or after `from` holding byte `c`.
pub open spec fn find_byte_from(h: Seq<u8>, c: u8, from: int) -> Option<int>
    decreases h.len() - from,
{
    if from < 0 || from >= h.len() {
        None
    } else if h[from] == c {
        Some(from)
    } else {
        find_byte_from(h, c, from + 1)
    }
}

pub proof fn lemma_find_byte_from_props(h: Seq<u8>, c: u8, from: int)
    ensures
        find_byte_from(h, c, from) matches Some(i) ==> 0 <= from <= i < h.len() && h[i] == c
            && forall|j: int| from <= j < i ==> #[trigger] h[j] != c,
        find_byte_from(h, c, from) is None ==> forall|j: int|
            0 <= from <= j < h.len() ==> #[trigger] h[j] != c,
    decreases h.len() - from,
{
    if from < 0 || from >= h.len() {
    } else if h[from] == c {
    } else {
        lemma_find_byte_from_props(h, c, from + 1);
    }
}

/// The first occurrence of byte `c` in `h` at or after `from`.
pub fn find_byte(h: &[u8], c: u8, from: usize) -> (r: Option<usize>)
    ensures
        opt_int(r) == find_byte_from(h@, c, from as int),
{
    let mut i: usize = from;
    while i < h.len()
        invariant
            from <= i,
            find_byte_from(h@, c, from as int) == find_byte_from(h@, c, i as int),
        decreases h@.len() - i,
    {
        if h[i] == c {
            return Some(i);
        }
        i = i + 1;
    }
    None
}

/// The last index of `h` holding byte `c`.
pub open spec fn rfind_byte_in(h: Seq<u8>, c: u8) -> Option<int>
    decreases h.len(),
{
    if h.len() == 0 {
        None
    } else if h.last() == c {
        Some(h.len() - 1)
    } else {
        rfind_byte_in(h.drop_last(), c)
    }
}

pub proof fn lemma_rfind_byte_props(h: Seq<u8>, c: u8)
    ensures
        rfind_byte_in(h, c) matches Some(i) ==> 0 <= i < h.len() && h[i] == c && forall|j: int|
            i < j < h.len() ==> #[trigger] h[j] != c,
        rfind_byte_in(h, c) is None ==> forall|j: int| 0 <= j < h.len() ==> #[trigger] h[j] != c,
    decreases h.len(),
{
    if h.len() > 0 && h.last() != c {
        lemma_rfind_byte_props(h.drop_last(), c);
        assert forall|j: int| 0 <= j < h.len() - 1 implies #[trigger] h[j] == h.drop_last()[j] by {}
    }
}

/// The last occurrence of byte `c` in `h[..end]`.
pub fn rfind_byte(h: &[u8], c: u8, end: usize) -> (r: Option<usize>)
    requires
        end <= h@.len(),
    ensures
        opt_int(r) == rfind_byte_in(h@.subrange(0, end as int), c),
{
    let mut i: usize = end;
    while i > 0
        invariant
            i <= end <= h@.len(),
            rfind_byte_in(h@.subrange(0, end as int), c) == rfind_byte_in(h@.subrange(0, i as int), c),
        decreases i,
    {
        assert(h@.subrange(0, i as int).drop_last() =~= h@.subrange(0, i - 1));
        if h[i - 1] == c {
            return Some(i - 1);
        }
        i = i - 1;
    }
    None
}


/// The three bytes encode a `White_Space` character (U+1680, U+2000..U+200A,
/// U+2028, U+2029, U+202F, U+205F or U+3000).
pub open spec fn ws3(x: u8, y: u8, z: u8) -> bool {
    ||| (x == 0xe1 && y == 0x9a && z == 0x80)
    ||| (x == 0xe2 && y == 0x80 && ((0x80 <= z <= 0x8a) || z == 0xa8 || z == 0xa9 || z == 0xaf))
    ||| (x == 0xe2 && y == 0x81 && z == 0x9f)
    ||| (x == 0xe3 && y == 0x80 && z == 0x80)
}

/// The two bytes encode a `White_Space` character (U+0085 or U+00A0).
pub open spec fn ws2(x: u8, y: u8) -> bool {
    x == 0xc2 && (y == 0x85 || y == 0xa0)
}

/// The byte is an ASCII `White_Space` character (U+0009..U+000D or U+0020).
pub open spec fn ws1(x: u8) -> bool {
    x == 0x20 || (0x09 <= x <= 0x0d)
}

/// Byte length of a Unicode `White_Space` character (the set `char::is_whitespace`
/// accepts) encoded at the start of `b`; 0 if `b` does not start with one.
pub open spec fn ws_prefix_len(b: Seq<u8>) -> int {
    if b.len() >= 1 && ws1(b[0]) {
        1
    } else if b.len() >= 2 && ws2(b[0], b[1]) {
        2
    } else if b.len() >= 3 && ws3(b[0], b[1], b[2]) {
        3
    } else {
        0
    }
}

/// Byte length of a `White_Space` character encoded at the end of `b`; 0 if none.
pub open spec fn ws_suffix_len(b: Seq<u8>) -> int {
    let n = b.len() as int;
    if n >= 1 && ws1(b[n - 1]) {
        1
    } else if n >= 2 && ws2(b[n - 2], b[n - 1]) {
        2
    } else if n >= 3 && ws3(b[n - 3], b[n - 2], b[n - 1]) {
        3
    } else {
        0
    }
}

/// `b` without its leading white space (`str::trim_start`).
pub open spec fn trim_start_ws(b: Seq<u8>) -> Seq<u8>
    decreases b.len(),
{
    let k = ws_prefix_len(b);
    if 0 < k <= b.len() {
        trim_start_ws(b.subrange(k, b.len() as int))
    } else {
        b
    }
}

/// `b` without its trailing white space (`str::trim_end`).
pub open spec fn trim_end_ws(b: Seq<u8>) -> Seq<u8>
    decreases b.len(),
{
    let k = ws_suffix_len(b);
    if 0 < k <= b.len() {
        trim_end_ws(b.subrange(0, b.len() - k))
    } else {
        b
    }
}

/// `b` without leading and trailing white space (`str::trim`).
pub open spec fn trim_ws(b: Seq<u8>) -> Seq<u8> {
    trim_end_ws(trim_start_ws(b))
}

/// The white-space character at a boundary is whole: the index after it is a boundary.
proof fn lemma_ws_step(b: Seq<u8>, i: int)
    requires
        valid_utf8(b),
        0 <= i < b.len(),
        at_boundary(b, i),
        ws_prefix_len(b.subrange(i, b.len() as int)) > 0,
    ensures
        i + ws_prefix_len(b.subrange(i, b.len() as int)) <= b.len(),
        at_boundary(b, i + ws_prefix_len(b.subrange(i, b.len() as int))),
{
    lemma_next_boundary(b, i);
}

fn is_ws1(x: u8) -> (r: bool)
    ensures
        r == ws1(x),
{
    x == 0x20 || (0x09 <= x && x <= 0x0d)
}

fn is_ws2(x: u8, y: u8) -> (r: bool)
    ensures
        r == ws2(x, y),
{
    x == 0xc2 && (y == 0x85 || y == 0xa0)
}

fn is_ws3(x: u8, y: u8, z: u8) -> (r: bool)
    ensures
        r == ws3(x, y, z),
{
    (x == 0xe1 && y == 0x9a && z == 0x80) || (x == 0xe2 && y == 0x80 && ((0x80 <= z && z <= 0x8a)
        || z == 0xa8 || z == 0xa9 || z == 0xaf)) || (x == 0xe2 && y == 0x81 && z == 0x9f) || (x
        == 0xe3 && y == 0x80 && z == 0x80)
}

/// Computes the byte length of the white-space character at `b[i..]`.
fn ws_prefix_len_at(b: &[u8], i: usize) -> (r: usize)
    requires
        i <= b@.len(),
    ensures
        r == ws_prefix_len(b@.subrange(i as int, b@.len() as int)),
{
    let n = b.len() - i;
    if n >= 1 && is_ws1(b[i]) {
        1
    } else if n >= 2 && is_ws2(b[i], b[i + 1]) {
        2
    } else if n >= 3 && is_ws3(b[i], b[i + 1], b[i + 2]) {
        3
    } else {
        0
    }
}

/// Index of the first byte of `b[from..]` that is not leading white space.
pub fn trim_start_index(b: &[u8], from: usize) -> (r: usize)
    requires
        from <= b@.len(),
    ensures
        from <= r <= b@.len(),
        b@.subrange(r as int, b@.len() as int) == trim_start_ws(b@.subrange(from as int, b@.len() as int)),
        valid_utf8(b@) && at_boundary(b@, from as int) ==> at_boundary(b@, r as int),
{
    let mut i: usize = from;
    loop
        invariant
            from <= i <= b@.len(),
            trim_start_ws(b@.subrange(i as int, b@.len() as int)) == trim_start_ws(
                b@.subrange(from as int, b@.len() as int),
            ),
            valid_utf8(b@) && at_boundary(b@, from as int) ==> at_boundary(b@, i as int),
        decreases b@.len() - i,
    {
        let k = ws_prefix_len_at(b, i);
        let ghost t = b@.subrange(i as int, b@.len() as int);
        if k == 0 || k > b.len() - i {
            return i;
        }
        proof {
            assert(t.subrange(k as int, t.len() as int) =~= b@.subrange(i + k, b@.len() as int));
            if valid_utf8(b@) && at_boundary(b@, from as int) && i < b@.len() {
                lemma_ws_step(b@, i as int);
            }
        }
        i = i + k;
    }
}

/// `s` without its leading white space.
pub fn str_trim_start(s: &str) -> (r: &str)
    ensures
        r.spec_bytes() == trim_start_ws(s.spec_bytes()),
{
    proof {
        lemma_str_valid(s);
    }
    let b = s.as_bytes();
    let i = trim_start_index(b, 0);
    proof {
        assert(b@.subrange(0, b@.len() as int) =~= b@);
    }
    substr(s, i, b.len())
}

/// Computes the byte length of the white-space character ending `b[start..end]`.
fn ws_suffix_len_in(b: &[u8], start: usize, end: usize) -> (r: usize)
    requires
        start <= end <= b@.len(),
    ensures
        r == ws_suffix_len(b@.subrange(start as int, end as int)),
{
    let n = end - start;
    if n >= 1 && is_ws1(b[end - 1]) {
        1
    } else if n >= 2 && is_ws2(b[end - 2], b[end - 1]) {
        2
    } else if n >= 3 && is_ws3(b[end - 3], b[end - 2], b[end - 1]) {
        3
    } else {
        0
    }
}

/// `s` without leading and trailing white space.
pub fn str_trim(s: &str) -> (r: &str)
    ensures
        r.spec_bytes() == trim_ws(s.spec_bytes()),
{
    proof {
        lemma_str_valid(s);
    }
    let b = s.as_bytes();
    let start = trim_start_index(b, 0);
    proof {
        assert(b@.subrange(0, b@.len() as int) =~= b@);
    }
    let mut end: usize = b.len();
    loop
        invariant
            b@ == s.spec_bytes(),
            start <= end <= b@.len(),
            at_boundary(b@, start as int),
            at_boundary(b@, end as int),
            b@.subrange(start as int, b@.len() as int) == trim_start_ws(b@),
            trim_end_ws(b@.subrange(start as int, end as int)) == trim_ws(b@),
        decreases end,
    {
        let k = ws_suffix_len_in(b, start, end);
        let ghost t = b@.subrange(start as int, end as int);
        if k == 0 {
            return substr(s, start, end);
        }
        proof {
            assert(t.subrange(0, t.len() - k) =~= b@.subrange(start as int, end - k));
        }
        end = end - k;
    }
}


/// The character view of each string.
pub open spec fn views(v: Seq<String>) -> Seq<Seq<char>> {
    v.map_values(|s: String| s@)
}

/// `acc` with `v` appended unless already present (`Vec::contains` then `push`).
pub open spec fn push_unique<T>(acc: Seq<T>, v: T) -> Seq<T> {
    if acc.contains(v) {
        acc
    } else {
        acc.push(v)
    }
}

/// `acc` after `push_unique` of each element of `vs` in order.
pub open spec fn push_all_unique<T>(acc: Seq<T>, vs: Seq<T>) -> Seq<T>
    decreases vs.len(),
{
    if vs.len() == 0 {
        acc
    } else {
        push_unique(push_all_unique(acc, vs.drop_last()), vs.last())
    }
}

pub proof fn lemma_push_all_unique_step<T>(acc: Seq<T>, vs: Seq<T>, v: T)
    ensures
        push_all_unique(acc, vs.push(v)) == push_unique(push_all_unique(acc, vs), v),
{
    assert(vs.push(v).drop_last() =~= vs);
}

/// UTF-8 encoding distributes over concatenation.
pub proof fn lemma_encode_concat(a: Seq<char>, b: Seq<char>)
    ensures
        encode_utf8(a + b) == encode_utf8(a) + encode_utf8(b),
    decreases a.len(),
{
    if a.len() == 0 {
        assert(a + b =~= b);
        assert(encode_utf8(a) =~= Seq::<u8>::empty());
        assert(Seq::<u8>::empty() + encode_utf8(b) =~= encode_utf8(b));
    } else {
        lemma_encode_concat(a.drop_first(), b);
        assert((a + b).drop_first() =~= a.drop_first() + b);
        assert((a + b)[0] == a[0]);
        assert(encode_utf8(a + b) =~= encode_scalar(a[0] as u32) + encode_utf8(a.drop_first() + b));
    }
}

/// Appending without repeats only appends: the earlier elements stay first,
/// in order.
pub proof fn lemma_push_all_unique_extends<T>(acc: Seq<T>, vs: Seq<T>)
    ensures
        acc.len() <= push_all_unique(acc, vs).len() <= acc.len() + vs.len(),
        push_all_unique(acc, vs).subrange(0, acc.len() as int) == acc,
    decreases vs.len(),
{
    if vs.len() > 0 {
        lemma_push_all_unique_extends(acc, vs.drop_last());
        let prev = push_all_unique(acc, vs.drop_last());
        assert(prev.push(vs.last()).subrange(0, acc.len() as int) =~= prev.subrange(0, acc.len() as int));
    } else {
        assert(acc.subrange(0, acc.len() as int) =~= acc);
    }
}

/// Appending without repeats keeps a repeat-free list repeat-free, and the
/// result holds exactly the elements of `acc` and of `vs`.
pub proof fn lemma_push_all_unique_set<T>(acc: Seq<T>, vs: Seq<T>)
    requires
        acc.no_duplicates(),
    ensures
        push_all_unique(acc, vs).no_duplicates(),
        forall|x: T| #[trigger] push_all_unique(acc, vs).contains(x) <==> acc.contains(x) || vs.contains(x),
    decreases vs.len(),
{
    if vs.len() > 0 {
        let prev = push_all_unique(acc, vs.drop_last());
        lemma_push_all_unique_set(acc, vs.drop_last());
        let v = vs.last();
        assert forall|x: T| vs.contains(x) <==> vs.drop_last().contains(x) || x == v by {
            if vs.contains(x) {
                let i = choose|i: int| 0 <= i < vs.len() && vs[i] == x;
                if i < vs.len() - 1 {
                    assert(vs.drop_last()[i] == x);
                }
            }
            if vs.drop_last().contains(x) {
                let i = choose|i: int| 0 <= i < vs.len() - 1 && vs.drop_last()[i] == x;
                assert(vs[i] == x);
            }
            if x == v {
                assert(vs[vs.len() - 1] == x);
            }
        }
        if !prev.contains(v) {
            assert forall|x: T| prev.push(v).contains(x) <==> prev.contains(x) || x == v by {
                if prev.push(v).contains(x) {
                    let i = choose|i: int| 0 <= i < prev.len() + 1 && prev.push(v)[i] == x;
                    if i < prev.len() {
                        assert(prev[i] == x);
                    }
                }
                if prev.contains(x) {
                    let i = choose|i: int| 0 <= i < prev.len() && prev[i] == x;
                    assert(prev.push(v)[i] == x);
                }
                if x == v {
                    assert(prev.push(v)[prev.len() as int] == x);
                }
            }
            assert forall|i: int, j: int| 0 <= i < prev.len() + 1 && 0 <= j < prev.len() + 1 && i != j implies prev.push(v)[i] != prev.push(v)[j] by {
                if i < prev.len() && j < prev.len() {
                } else if i < prev.len() {
                    assert(prev.contains(prev[i]));
                } else if j < prev.len() {
                    assert(prev.contains(prev[j]));
                }
            }
        }
        assert forall|x: T| #[trigger] push_all_unique(acc, vs).contains(x) <==> acc.contains(x) || vs.contains(x) by {
            assert(prev.contains(x) <==> acc.contains(x) || vs.drop_last().contains(x));
            if !prev.contains(v) {
                assert(prev.push(v).contains(x) <==> prev.contains(x) || x == v);
            }
        }
    }
}

/// The character view of a string slice decodes its bytes.
pub proof fn lemma_decode_view(s: &str)
    ensures
        decode_utf8(s.spec_bytes()) == s@,
{
    encode_utf8_decode_utf8(s@);
}

/// Appends `v` to `results` unless an equal string is already there.
pub fn push_unique_string(results: &mut Vec<String>, v: String)
    ensures
        views(final(results)@) == push_unique(views(old(results)@), v@),
{
    let mut i: usize = 0;
    while i < results.len()
        invariant
            i <= results@.len(),
            results@ == old(results)@,
            forall|j: int| 0 <= j < i ==> results@[j]@ != v@,
        decreases results@.len() - i,
    {
        if results[i] == v {
            assert(views(results@)[i as int] == v@);
            return;
        }
        i = i + 1;
    }
    proof {
        assert(!views(old(results)@).contains(v@));
    }
    results.push(v);
    proof {
        assert(views(results@) =~= views(old(results)@).push(v@));
    }
}

/// Whether two string slices hold the same characters.
pub fn str_eq(a: &str, b: &str) -> (r: bool)
    ensures
        r == (a@ == b@),
{
    let x = a.as_bytes();
    let y = b.as_bytes();
    if x.len() != y.len() {
        return false;
    }
    let mut i: usize = 0;
    while i < x.len()
        invariant
            x@ == a.spec_bytes(),
            y@ == b.spec_bytes(),
            x@.len() == y@.len(),
            i <= x@.len(),
            forall|j: int| 0 <= j < i ==> x@[j] == y@[j],
        decreases x@.len() - i,
    {
        if x[i] != y[i] {
            assert(x@ != y@);
            return false;
        }
        i = i + 1;
    }
    proof {
        assert(x@ =~= y@);
        lemma_decode_view(a);
        lemma_decode_view(b);
    }
    true
}

/// Whether `v` holds a string equal to `s`.
pub fn contains_string(v: &Vec<String>, s: &String) -> (r: bool)
    ensures
        r == views(v@).contains(s@),
{
    let mut i: usize = 0;
    while i < v.len()
        invariant
            i <= v@.len(),
            forall|j: int| 0 <= j < i ==> v@[j]@ != s@,
        decreases v@.len() - i,
    {
        if v[i] == *s {
            assert(views(v@)[i as int] == s@);
            return true;
        }
        i = i + 1;
    }
    false
}

/// Appends `t` to `s`.
pub fn push_str(s: &mut String, t: &str)
    ensures
        final(s)@ == old(s)@ + t@,
{
    s.append(t);
}


/// The ASCII lowercase of a character: `A`..`Z` become `a`..`z`, any other
/// character is unchanged.
pub open spec fn ascii_lower_char(c: char) -> char {
    if 'A' <= c <= 'Z' {
        ((c as u32) + 32) as char
    } else {
        c
    }
}

/// The ASCII uppercase of a character: `a`..`z` become `A`..`Z`, any other
/// character is unchanged.
pub open spec fn ascii_upper_char(c: char) -> char {
    if 'a' <= c <= 'z' {
        ((c as u32) - 32) as char
    } else {
        c
    }
}

/// `s` with its ASCII letters lowercased.
pub open spec fn ascii_lowercase(s: Seq<char>) -> Seq<char> {
    s.map_values(|c: char| ascii_lower_char(c))
}

/// `s` with its ASCII letters uppercased.
pub open spec fn ascii_uppercase(s: Seq<char>) -> Seq<char> {
    s.map_values(|c: char| ascii_upper_char(c))
}

/// What `str::to_lowercase` returns for the given characters (Unicode lowercase mapping).
pub uninterp spec fn lowercase_of(s: Seq<char>) -> Seq<char>;

/// The lowercase form of `s` that `str::to_lowercase` gives: the ASCII
/// lowercase for ASCII text, the Unicode mapping otherwise.
pub open spec fn lowered(s: Seq<char>) -> Seq<char> {
    if is_ascii_chars(s) {
        ascii_lowercase(s)
    } else {
        lowercase_of(s)
    }
}

/// Calls `str::to_lowercase`. The contract names the result as a function of
/// the input characters and states the documented ASCII case: ASCII text has
/// exactly its letters `A`..`Z` lowercased. The Unicode mapping of other
/// characters is left unstated.
#[verifier::external_body]
pub(crate) fn to_lowercase(s: &str) -> (r: String)
    ensures
        r@ == lowercase_of(s@),
        is_ascii_chars(s@) ==> r@ == ascii_lowercase(s@),
{
    s.to_lowercase()
}

/// Lowering after raising the ASCII letters is lowering.
pub proof fn lemma_lower_upper(s: Seq<char>)
    ensures
        ascii_lowercase(ascii_uppercase(s)) == ascii_lowercase(s),
        is_ascii_chars(s) ==> is_ascii_chars(ascii_uppercase(s)),
{
    assert(ascii_lowercase(ascii_uppercase(s)) =~= ascii_lowercase(s));
}

/// Text without ASCII capitals is its own ASCII lowercase.
pub proof fn lemma_lower_no_capitals(s: Seq<char>)
    requires
        forall|i: int| 0 <= i < s.len() ==> !('A' <= #[trigger] s[i] <= 'Z'),
    ensures
        ascii_lowercase(s) == s,
{
    assert(ascii_lowercase(s) =~= s);
}


/// What `String::from_utf8_lossy` returns for the given bytes.
pub uninterp spec fn lossy_utf8_of(b: Seq<u8>) -> Seq<char>;

/// Calls `String::from_utf8_lossy`. The contract names the result as a function
/// of the bytes and states the documented case that valid UTF-8 decodes
/// unchanged; how invalid sequences are replaced is left unstated.
#[verifier::external_body]
pub(crate) fn utf8_lossy(b: &[u8]) -> (r: String)
    ensures
        r@ == lossy_utf8_of(b@),
        valid_utf8(b@) ==> r@ == decode_utf8(b@),
{
    String::from_utf8_lossy(b).into_owned()
}

/// `h` ends with `p`.
pub open spec fn ends_with(h: Seq<u8>, p: Seq<u8>) -> bool {
    matches_at(h, p, h.len() - p.len())
}

/// Whether `h` ends with `p`.
pub fn bytes_end_with(h: &[u8], p: &[u8]) -> (r: bool)
    ensures
        r == ends_with(h@, p@),
{
    if p.len() > h.len() {
        return false;
    }
    bytes_match_at(h, p, h.len() - p.len())
}

/// The bytes of an ASCII string are its characters.
pub proof fn lemma_ascii_literal_bytes(s: &str)
    requires
        is_ascii_chars(s@),
    ensures
        s.spec_bytes() == s@.map_values(|c: char| c as u8),
{
    is_ascii_chars_encode_utf8(s@);
    assert(s.spec_bytes() =~= s@.map_values(|c: char| c as u8));
}

} // verus!
