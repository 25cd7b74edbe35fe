//! Relative paths, base URLs and MIME types.
use vstd::prelude::*;
use vstd::string::*;
use vstd::utf8::*;
use crate::text::{
    ascii_lower, bytes_eq_ignore_ascii_case, eq_ignore_ascii_case, matches_at,
    at_boundary, find_bytes, find_from, lemma_ascii_step, lemma_decode_view,
    lemma_rfind_byte_props, lemma_str_valid, owned, rfind_byte, rfind_byte_in, starts_with,
    substr,
};
use crate::extract::{dot_slash, scheme_separator, SLASH};

verus! {

/// The ASCII `.`.
pub const DOT: u8 = 0x2e;

/// `b` without any leading sequence of `/` and `./` segments.
pub open spec fn clean_path_bytes(b: Seq<u8>) -> Seq<u8>
    decreases b.len(),
{
    if b.len() > 0 && b[0] == SLASH {
        clean_path_bytes(b.subrange(1, b.len() as int))
    } else if starts_with(b, dot_slash()) {
        clean_path_bytes(b.subrange(2, b.len() as int))
    } else {
        b
    }
}

/// Strips leading slashes and `./` prefixes from a relative path.
pub fn clean_relative_path(path: &str) -> (r: String)
    ensures
        r@ == decode_utf8(clean_path_bytes(path.spec_bytes())),
{
    proof {
        lemma_str_valid(path);
    }
    let b = path.as_bytes();
    let mut i: usize = 0;
    proof {
        assert(b@.subrange(0, b@.len() as int) =~= b@);
    }
    loop
        invariant
            b@ == path.spec_bytes(),
            valid_utf8(b@),
            i <= b@.len(),
            at_boundary(b@, i as int),
            clean_path_bytes(b@) == clean_path_bytes(b@.subrange(i as int, b@.len() as int)),
        decreases b@.len() - i,
    {
        let ghost t = b@.subrange(i as int, b@.len() as int);
        if i < b.len() && b[i] == SLASH {
            proof {
                lemma_ascii_step(b@, i as int);
                assert(t.subrange(1, t.len() as int) =~= b@.subrange(i + 1, b@.len() as int));
            }
            i = i + 1;
        } else if b.len() - i >= 2 && b[i] == DOT && b[i + 1] == SLASH {
            proof {
                assert(t.subrange(0, 2) =~= dot_slash());
                lemma_ascii_step(b@, i as int);
                lemma_ascii_step(b@, i + 1);
                assert(t.subrange(2, t.len() as int) =~= b@.subrange(i + 2, b@.len() as int));
            }
            i = i + 2;
        } else {
            proof {
                if t.len() >= 2 {
                    assert(t.subrange(0, 2) != dot_slash() || (t[0] == DOT && t[1] == SLASH));
                    assert(t.subrange(0, 2)[0] == t[0] && t.subrange(0, 2)[1] == t[1]);
                }
            }
            let s = substr(path, i, b.len());
            proof {
                lemma_decode_view(s);
            }
            return owned(s);
        }
    }
}

/// `b` without its trailing slashes.
pub open spec fn trim_end_slashes(b: Seq<u8>) -> Seq<u8>
    decreases b.len(),
{
    if b.len() > 0 && b.last() == SLASH {
        trim_end_slashes(b.drop_last())
    } else {
        b
    }
}

/// The base URL for resolving a page's relative resources: a URL ending in `/`
/// loses its trailing slashes; otherwise the last path segment is removed,
/// provided its `/` lies after the `//` of the scheme separator.
pub open spec fn base_url_bytes(u: Seq<u8>) -> Seq<u8> {
    let t = trim_end_slashes(u);
    if u.len() > 0 && u.last() == SLASH {
        t
    } else {
        match rfind_byte_in(t, SLASH) {
            Some(p) => {
                let floor = match find_from(t, scheme_separator(), 0) {
                    Some(q) => q + 2,
                    None => 0,
                };
                if p > floor {
                    t.subrange(0, p)
                } else {
                    t
                }
            },
            None => t,
        }
    }
}

/// Derives the base URL from a final URL by stripping the last path segment.
pub fn derive_base_url(final_url: &str) -> (r: String)
    ensures
        r@ == decode_utf8(base_url_bytes(final_url.spec_bytes())),
{
    proof {
        lemma_str_valid(final_url);
    }
    let b = final_url.as_bytes();
    let mut end: usize = b.len();
    proof {
        assert(b@.subrange(0, b@.len() as int) =~= b@);
    }
    while end > 0 && b[end - 1] == SLASH
        invariant
            b@ == final_url.spec_bytes(),
            valid_utf8(b@),
            end <= b@.len(),
            at_boundary(b@, end as int),
            trim_end_slashes(b@) == trim_end_slashes(b@.subrange(0, end as int)),
        decreases end,
    {
        proof {
            assert(b@.subrange(0, end as int).drop_last() =~= b@.subrange(0, end - 1));
        }
        end = end - 1;
    }
    let ghost t = b@.subrange(0, end as int);
    proof {
        if end > 0 {
            assert(t.last() == b@[end - 1]);
        }
    }
    let url = substr(final_url, 0, end);
    proof {
        lemma_decode_view(url);
    }
    if b.len() > 0 && b[b.len() - 1] == SLASH {
        return owned(url);
    }
    let ub = url.as_bytes();
    let sep: [u8; 3] = [0x3a, 0x2f, 0x2f];
    proof {
        assert(sep@ =~= scheme_separator());
        assert(ub@.subrange(0, ub@.len() as int) =~= ub@);
        lemma_rfind_byte_props(ub@, SLASH);
    }
    if let Some(p) = rfind_byte(ub, SLASH, ub.len()) {
        proof {
            crate::text::lemma_find_from_props(ub@, sep@, 0);
        }
        let ulen = ub.len();
        let floor: usize = match find_bytes(ub, sep.as_slice(), 0) {
            Some(q) => {
                assert(q + 3 <= ulen);
                q + 2
            },
            None => 0,
        };
        if p > floor {
            let s = substr(final_url, 0, p);
            proof {
                lemma_decode_view(s);
                assert(s.spec_bytes() =~= t.subrange(0, p as int));
            }
            return owned(s);
        }
    }
    owned(url)
}

/// The extension of a path: from its last `.` to the end, or empty.
pub open spec fn extension_of(p: Seq<u8>) -> Seq<u8> {
    match rfind_byte_in(p, DOT) {
        Some(i) => p.subrange(i, p.len() as int),
        None => Seq::empty(),
    }
}

/// The MIME type served for a file with extension `ext`.
pub open spec fn mime_of(ext: Seq<u8>) -> Seq<char> {
    if eq_ignore_ascii_case(ext, ".html".spec_bytes()) || eq_ignore_ascii_case(ext, ".htm".spec_bytes()) {
        "text/html"@
    } else if eq_ignore_ascii_case(ext, ".js".spec_bytes()) || eq_ignore_ascii_case(ext, ".mjs".spec_bytes()) {
        "application/javascript"@
    } else if eq_ignore_ascii_case(ext, ".wasm".spec_bytes()) {
        "application/wasm"@
    } else if eq_ignore_ascii_case(ext, ".css".spec_bytes()) {
        "text/css"@
    } else if eq_ignore_ascii_case(ext, ".json".spec_bytes()) {
        "application/json"@
    } else if eq_ignore_ascii_case(ext, ".png".spec_bytes()) {
        "image/png"@
    } else if eq_ignore_ascii_case(ext, ".jpg".spec_bytes()) || eq_ignore_ascii_case(ext, ".jpeg".spec_bytes()) {
        "image/jpeg"@
    } else if eq_ignore_ascii_case(ext, ".gif".spec_bytes()) {
        "image/gif"@
    } else if eq_ignore_ascii_case(ext, ".svg".spec_bytes()) {
        "image/svg+xml"@
    } else if eq_ignore_ascii_case(ext, ".ico".spec_bytes()) {
        "image/x-icon"@
    } else if eq_ignore_ascii_case(ext, ".woff".spec_bytes()) {
        "font/woff"@
    } else if eq_ignore_ascii_case(ext, ".woff2".spec_bytes()) {
        "font/woff2"@
    } else if eq_ignore_ascii_case(ext, ".ttf".spec_bytes()) {
        "font/ttf"@
    } else if eq_ignore_ascii_case(ext, ".otf".spec_bytes()) {
        "font/otf"@
    } else if eq_ignore_ascii_case(ext, ".webp".spec_bytes()) {
        "image/webp"@
    } else {
        "application/octet-stream"@
    }
}

/// Returns the MIME type for a file path based on its extension (compared
/// case-insensitively); `application/octet-stream` when none is known.
pub fn mime_for(path: &str) -> (r: &'static str)
    ensures
        r@ == mime_of(extension_of(path.spec_bytes())),
{
    let b = path.as_bytes();
    proof {
        assert(b@.subrange(0, b@.len() as int) =~= b@);
        lemma_rfind_byte_props(b@, DOT);
    }
    let ext: &[u8] = match rfind_byte(b, DOT, b.len()) {
        Some(i) => &b[i..b.len()],
        None => &b[0..0],
    };
    proof {
        assert(b@.subrange(0, 0) =~= Seq::<u8>::empty());
    }
    if bytes_eq_ignore_ascii_case(ext, ".html".as_bytes()) || bytes_eq_ignore_ascii_case(ext, ".htm".as_bytes()) {
        "text/html"
    } else if bytes_eq_ignore_ascii_case(ext, ".js".as_bytes()) || bytes_eq_ignore_ascii_case(ext, ".mjs".as_bytes()) {
        "application/javascript"
    } else if bytes_eq_ignore_ascii_case(ext, ".wasm".as_bytes()) {
        "application/wasm"
    } else if bytes_eq_ignore_ascii_case(ext, ".css".as_bytes()) {
        "text/css"
    } else if bytes_eq_ignore_ascii_case(ext, ".json".as_bytes()) {
        "application/json"
    } else if bytes_eq_ignore_ascii_case(ext, ".png".as_bytes()) {
        "image/png"
    } else if bytes_eq_ignore_ascii_case(ext, ".jpg".as_bytes()) || bytes_eq_ignore_ascii_case(ext, ".jpeg".as_bytes()) {
        "image/jpeg"
    } else if bytes_eq_ignore_ascii_case(ext, ".gif".as_bytes()) {
        "image/gif"
    } else if bytes_eq_ignore_ascii_case(ext, ".svg".as_bytes()) {
        "image/svg+xml"
    } else if bytes_eq_ignore_ascii_case(ext, ".ico".as_bytes()) {
        "image/x-icon"
    } else if bytes_eq_ignore_ascii_case(ext, ".woff".as_bytes()) {
        "font/woff"
    } else if bytes_eq_ignore_ascii_case(ext, ".woff2".as_bytes()) {
        "font/woff2"
    } else if bytes_eq_ignore_ascii_case(ext, ".ttf".as_bytes()) {
        "font/ttf"
    } else if bytes_eq_ignore_ascii_case(ext, ".otf".as_bytes()) {
        "font/otf"
    } else if bytes_eq_ignore_ascii_case(ext, ".webp".as_bytes()) {
        "image/webp"
    } else {
        "application/octet-stream"
    }
}


/// A cleaned path starts with neither `/` nor `./`, so cleaning it again
/// changes nothing.
pub proof fn lemma_clean_path_idempotent(b: Seq<u8>)
    ensures
        !(clean_path_bytes(b).len() > 0 && clean_path_bytes(b)[0] == SLASH),
        !starts_with(clean_path_bytes(b), dot_slash()),
        clean_path_bytes(clean_path_bytes(b)) == clean_path_bytes(b),
    decreases b.len(),
{
    if b.len() > 0 && b[0] == SLASH {
        lemma_clean_path_idempotent(b.subrange(1, b.len() as int));
    } else if starts_with(b, dot_slash()) {
        lemma_clean_path_idempotent(b.subrange(2, b.len() as int));
    }
}

proof fn lemma_trim_end_slashes_prefix(b: Seq<u8>)
    ensures
        trim_end_slashes(b).len() <= b.len(),
        trim_end_slashes(b) == b.subrange(0, trim_end_slashes(b).len() as int),
    decreases b.len(),
{
    if b.len() > 0 && b.last() == SLASH {
        lemma_trim_end_slashes_prefix(b.drop_last());
        let t = trim_end_slashes(b.drop_last());
        assert(b.drop_last().subrange(0, t.len() as int) =~= b.subrange(0, t.len() as int));
    } else {
        assert(b.subrange(0, b.len() as int) =~= b);
    }
}

/// The base URL is always a prefix of the URL it is derived from.
pub proof fn lemma_base_url_is_prefix(u: Seq<u8>)
    ensures
        base_url_bytes(u).len() <= u.len(),
        base_url_bytes(u) == u.subrange(0, base_url_bytes(u).len() as int),
{
    lemma_trim_end_slashes_prefix(u);
    let t = trim_end_slashes(u);
    crate::text::lemma_rfind_byte_props(t, SLASH);
    if let Some(p) = rfind_byte_in(t, SLASH) {
        assert(t.subrange(0, p) =~= u.subrange(0, p));
    }
}

/// Extensions that differ only in ASCII case get the same MIME type.
pub proof fn lemma_mime_ignores_ascii_case(e1: Seq<u8>, e2: Seq<u8>)
    requires
        eq_ignore_ascii_case(e1, e2),
    ensures
        mime_of(e1) == mime_of(e2),
{
    assert forall|lit: Seq<u8>| eq_ignore_ascii_case(e1, lit) == eq_ignore_ascii_case(e2, lit) by {
        if eq_ignore_ascii_case(e1, lit) {
            assert forall|i: int| 0 <= i < e2.len() implies ascii_lower(#[trigger] e2[i]) == ascii_lower(lit[i]) by {
                assert(ascii_lower(e1[i]) == ascii_lower(e2[i]));
            }
        }
        if eq_ignore_ascii_case(e2, lit) {
            assert forall|i: int| 0 <= i < e1.len() implies ascii_lower(#[trigger] e1[i]) == ascii_lower(lit[i]) by {
                assert(ascii_lower(e1[i]) == ascii_lower(e2[i]));
            }
        }
    }
}

/// A leading run of `/` and `./` pieces, as cleaning removes.
pub open spec fn is_strip_prefix(p: Seq<u8>) -> bool
    decreases p.len(),
{
    if p.len() == 0 {
        true
    } else if p[0] == SLASH {
        is_strip_prefix(p.subrange(1, p.len() as int))
    } else if starts_with(p, dot_slash()) {
        is_strip_prefix(p.subrange(2, p.len() as int))
    } else {
        false
    }
}

/// Cleaning valid UTF-8 removes a strip prefix of length `k` and keeps the
/// rest, which is valid UTF-8 again.
proof fn lemma_clean_path_suffix(b: Seq<u8>) -> (k: int)
    requires
        valid_utf8(b),
    ensures
        0 <= k <= b.len(),
        is_strip_prefix(b.subrange(0, k)),
        clean_path_bytes(b) == b.subrange(k, b.len() as int),
        valid_utf8(clean_path_bytes(b)),
    decreases b.len(),
{
    lemma_str_boundary_zero(b);
    if b.len() > 0 && b[0] == SLASH {
        let t = b.subrange(1, b.len() as int);
        lemma_ascii_step(b, 0);
        crate::text::lemma_at_boundary_is_char_boundary(b, 1);
        valid_utf8_split(b, 1);
        let k1 = lemma_clean_path_suffix(t);
        assert(b.subrange(0, k1 + 1).subrange(1, k1 + 1) =~= t.subrange(0, k1));
        assert(t.subrange(k1, t.len() as int) =~= b.subrange(k1 + 1, b.len() as int));
        k1 + 1
    } else if starts_with(b, dot_slash()) {
        let t = b.subrange(2, b.len() as int);
        assert(b.subrange(0, 2)[0] == b[0]);
        assert(b.subrange(0, 2)[1] == b[1]);
        lemma_ascii_step(b, 0);
        lemma_ascii_step(b, 1);
        crate::text::lemma_at_boundary_is_char_boundary(b, 2);
        valid_utf8_split(b, 2);
        let k1 = lemma_clean_path_suffix(t);
        let p = b.subrange(0, k1 + 2);
        assert(p.subrange(0, 2) =~= b.subrange(0, 2));
        assert(p.subrange(2, k1 + 2) =~= t.subrange(0, k1));
        assert(t.subrange(k1, t.len() as int) =~= b.subrange(k1 + 2, b.len() as int));
        k1 + 2
    } else {
        assert(b.subrange(0, 0) =~= Seq::<u8>::empty());
        assert(b.subrange(0, b.len() as int) =~= b);
        0
    }
}

proof fn lemma_str_boundary_zero(b: Seq<u8>)
    requires
        valid_utf8(b),
    ensures
        at_boundary(b, 0),
{
    if b.len() > 0 {
        assert(valid_first_scalar(b));
    }
}

/// `clean_relative_path` removes a leading run of `/` and `./` pieces and
/// nothing else; what it returns starts with neither, and cleaning the
/// returned string again returns it unchanged.
pub proof fn lemma_clean_relative_path_law(path: Seq<char>)
    ensures
        ({
            let b = encode_utf8(path);
            let c = clean_path_bytes(b);
            let r = decode_utf8(c);
            &&& exists|k: int|
                0 <= k <= b.len() && is_strip_prefix(#[trigger] b.subrange(0, k)) && c == b.subrange(
                    k,
                    b.len() as int,
                )
            &&& encode_utf8(r) == c
            &&& !(c.len() > 0 && c[0] == SLASH)
            &&& !starts_with(c, dot_slash())
            &&& decode_utf8(clean_path_bytes(encode_utf8(r))) == r
        }),
{
    let b = encode_utf8(path);
    encode_utf8_valid_utf8(path);
    let k = lemma_clean_path_suffix(b);
    let c = clean_path_bytes(b);
    decode_utf8_encode_utf8(c);
    lemma_clean_path_idempotent(b);
}

/// The MIME type depends only on the text from the last `.`: a path ending in
/// the extension `e` gets the type of `e`, whatever comes before it.
pub proof fn lemma_mime_depends_on_extension(s: Seq<u8>, e: Seq<u8>)
    requires
        e.len() > 0,
        e[0] == DOT,
        forall|i: int| 1 <= i < e.len() ==> #[trigger] e[i] != DOT,
    ensures
        extension_of(s + e) == e,
        mime_of(extension_of(s + e)) == mime_of(e),
{
    let h = s + e;
    lemma_rfind_byte_props(h, DOT);
    assert(h[s.len() as int] == DOT);
    let i = rfind_byte_in(h, DOT)->0;
    if i > s.len() {
        assert(h[i] == e[i - s.len()]);
    }
    assert(h.subrange(s.len() as int, h.len() as int) =~= e);
}

/// Every MIME type served is one of the listed ones.
pub proof fn lemma_mime_is_listed(e: Seq<u8>)
    ensures
        ({
            let m = mime_of(e);
            ||| m == "text/html"@
            ||| m == "application/javascript"@
            ||| m == "application/wasm"@
            ||| m == "text/css"@
            ||| m == "application/json"@
            ||| m == "image/png"@
            ||| m == "image/jpeg"@
            ||| m == "image/gif"@
            ||| m == "image/svg+xml"@
            ||| m == "image/x-icon"@
            ||| m == "font/woff"@
            ||| m == "font/woff2"@
            ||| m == "font/ttf"@
            ||| m == "font/otf"@
            ||| m == "image/webp"@
            ||| m == "application/octet-stream"@
        }),
{
}

/// Each listed extension, in any ASCII case, gets its MIME type, and any
/// other extension gets `application/octet-stream`.
pub proof fn lemma_mime_of_listed(ext: Seq<u8>)
    ensures
        eq_ignore_ascii_case(ext, ".html".spec_bytes()) ==> mime_of(ext) == "text/html"@,
        eq_ignore_ascii_case(ext, ".htm".spec_bytes()) ==> mime_of(ext) == "text/html"@,
        eq_ignore_ascii_case(ext, ".js".spec_bytes()) ==> mime_of(ext) == "application/javascript"@,
        eq_ignore_ascii_case(ext, ".mjs".spec_bytes()) ==> mime_of(ext) == "application/javascript"@,
        eq_ignore_ascii_case(ext, ".wasm".spec_bytes()) ==> mime_of(ext) == "application/wasm"@,
        eq_ignore_ascii_case(ext, ".css".spec_bytes()) ==> mime_of(ext) == "text/css"@,
        eq_ignore_ascii_case(ext, ".json".spec_bytes()) ==> mime_of(ext) == "application/json"@,
        eq_ignore_ascii_case(ext, ".png".spec_bytes()) ==> mime_of(ext) == "image/png"@,
        eq_ignore_ascii_case(ext, ".jpg".spec_bytes()) ==> mime_of(ext) == "image/jpeg"@,
        eq_ignore_ascii_case(ext, ".jpeg".spec_bytes()) ==> mime_of(ext) == "image/jpeg"@,
        eq_ignore_ascii_case(ext, ".gif".spec_bytes()) ==> mime_of(ext) == "image/gif"@,
        eq_ignore_ascii_case(ext, ".svg".spec_bytes()) ==> mime_of(ext) == "image/svg+xml"@,
        eq_ignore_ascii_case(ext, ".ico".spec_bytes()) ==> mime_of(ext) == "image/x-icon"@,
        eq_ignore_ascii_case(ext, ".woff".spec_bytes()) ==> mime_of(ext) == "font/woff"@,
        eq_ignore_ascii_case(ext, ".woff2".spec_bytes()) ==> mime_of(ext) == "font/woff2"@,
        eq_ignore_ascii_case(ext, ".ttf".spec_bytes()) ==> mime_of(ext) == "font/ttf"@,
        eq_ignore_ascii_case(ext, ".otf".spec_bytes()) ==> mime_of(ext) == "font/otf"@,
        eq_ignore_ascii_case(ext, ".webp".spec_bytes()) ==> mime_of(ext) == "image/webp"@,
        !eq_ignore_ascii_case(ext, ".html".spec_bytes()) && !eq_ignore_ascii_case(ext, ".htm".spec_bytes()) && !eq_ignore_ascii_case(ext, ".js".spec_bytes()) && !eq_ignore_ascii_case(ext, ".mjs".spec_bytes()) && !eq_ignore_ascii_case(ext, ".wasm".spec_bytes()) && !eq_ignore_ascii_case(ext, ".css".spec_bytes()) && !eq_ignore_ascii_case(ext, ".json".spec_bytes()) && !eq_ignore_ascii_case(ext, ".png".spec_bytes()) && !eq_ignore_ascii_case(ext, ".jpg".spec_bytes()) && !eq_ignore_ascii_case(ext, ".jpeg".spec_bytes()) && !eq_ignore_ascii_case(ext, ".gif".spec_bytes()) && !eq_ignore_ascii_case(ext, ".svg".spec_bytes()) && !eq_ignore_ascii_case(ext, ".ico".spec_bytes()) && !eq_ignore_ascii_case(ext, ".woff".spec_bytes()) && !eq_ignore_ascii_case(ext, ".woff2".spec_bytes()) && !eq_ignore_ascii_case(ext, ".ttf".spec_bytes()) && !eq_ignore_ascii_case(ext, ".otf".spec_bytes()) && !eq_ignore_ascii_case(ext, ".webp".spec_bytes())
            ==> mime_of(ext) == "application/octet-stream"@,
{
    reveal_strlit(".html");
    crate::text::lemma_ascii_literal_bytes(".html");
    reveal_strlit(".htm");
    crate::text::lemma_ascii_literal_bytes(".htm");
    reveal_strlit(".js");
    crate::text::lemma_ascii_literal_bytes(".js");
    reveal_strlit(".mjs");
    crate::text::lemma_ascii_literal_bytes(".mjs");
    reveal_strlit(".wasm");
    crate::text::lemma_ascii_literal_bytes(".wasm");
    reveal_strlit(".css");
    crate::text::lemma_ascii_literal_bytes(".css");
    reveal_strlit(".json");
    crate::text::lemma_ascii_literal_bytes(".json");
    reveal_strlit(".png");
    crate::text::lemma_ascii_literal_bytes(".png");
    reveal_strlit(".jpg");
    crate::text::lemma_ascii_literal_bytes(".jpg");
    reveal_strlit(".jpeg");
    crate::text::lemma_ascii_literal_bytes(".jpeg");
    reveal_strlit(".gif");
    crate::text::lemma_ascii_literal_bytes(".gif");
    reveal_strlit(".svg");
    crate::text::lemma_ascii_literal_bytes(".svg");
    reveal_strlit(".ico");
    crate::text::lemma_ascii_literal_bytes(".ico");
    reveal_strlit(".woff");
    crate::text::lemma_ascii_literal_bytes(".woff");
    reveal_strlit(".woff2");
    crate::text::lemma_ascii_literal_bytes(".woff2");
    reveal_strlit(".ttf");
    crate::text::lemma_ascii_literal_bytes(".ttf");
    reveal_strlit(".otf");
    crate::text::lemma_ascii_literal_bytes(".otf");
    reveal_strlit(".webp");
    crate::text::lemma_ascii_literal_bytes(".webp");
    if eq_ignore_ascii_case(ext, ".mjs".spec_bytes()) {
        assert(ascii_lower(ext[1]) == ascii_lower(".mjs".spec_bytes()[1]));
    }
    if eq_ignore_ascii_case(ext, ".wasm".spec_bytes()) {
        assert(ascii_lower(ext[1]) == ascii_lower(".wasm".spec_bytes()[1]));
    }
    if eq_ignore_ascii_case(ext, ".css".spec_bytes()) {
        assert(ascii_lower(ext[1]) == ascii_lower(".css".spec_bytes()[1]));
    }
    if eq_ignore_ascii_case(ext, ".json".spec_bytes()) {
        assert(ascii_lower(ext[1]) == ascii_lower(".json".spec_bytes()[1]));
    }
    if eq_ignore_ascii_case(ext, ".png".spec_bytes()) {
        assert(ascii_lower(ext[1]) == ascii_lower(".png".spec_bytes()[1]));
    }
    if eq_ignore_ascii_case(ext, ".jpg".spec_bytes()) {
        assert(ascii_lower(ext[1]) == ascii_lower(".jpg".spec_bytes()[1]));
    }
    if eq_ignore_ascii_case(ext, ".jpeg".spec_bytes()) {
        assert(ascii_lower(ext[1]) == ascii_lower(".jpeg".spec_bytes()[1]));
        assert(ascii_lower(ext[2]) == ascii_lower(".jpeg".spec_bytes()[2]));
    }
    if eq_ignore_ascii_case(ext, ".gif".spec_bytes()) {
        assert(ascii_lower(ext[1]) == ascii_lower(".gif".spec_bytes()[1]));
    }
    if eq_ignore_ascii_case(ext, ".svg".spec_bytes()) {
        assert(ascii_lower(ext[1]) == ascii_lower(".svg".spec_bytes()[1]));
    }
    if eq_ignore_ascii_case(ext, ".ico".spec_bytes()) {
        assert(ascii_lower(ext[1]) == ascii_lower(".ico".spec_bytes()[1]));
    }
    if eq_ignore_ascii_case(ext, ".woff".spec_bytes()) {
        assert(ascii_lower(ext[1]) == ascii_lower(".woff".spec_bytes()[1]));
        assert(ascii_lower(ext[2]) == ascii_lower(".woff".spec_bytes()[2]));
    }
    if eq_ignore_ascii_case(ext, ".ttf".spec_bytes()) {
        assert(ascii_lower(ext[1]) == ascii_lower(".ttf".spec_bytes()[1]));
    }
    if eq_ignore_ascii_case(ext, ".otf".spec_bytes()) {
        assert(ascii_lower(ext[1]) == ascii_lower(".otf".spec_bytes()[1]));
    }
    if eq_ignore_ascii_case(ext, ".webp".spec_bytes()) {
        assert(ascii_lower(ext[1]) == ascii_lower(".webp".spec_bytes()[1]));
        assert(ascii_lower(ext[2]) == ascii_lower(".webp".spec_bytes()[2]));
    }
}

proof fn lemma_trim_end_slashes_exact(b: Seq<u8>)
    ensures
        trim_end_slashes(b).len() <= b.len(),
        trim_end_slashes(b) == b.subrange(0, trim_end_slashes(b).len() as int),
        !(trim_end_slashes(b).len() > 0 && trim_end_slashes(b).last() == SLASH),
        forall|j: int| trim_end_slashes(b).len() <= j < b.len() ==> #[trigger] b[j] == SLASH,
    decreases b.len(),
{
    lemma_trim_end_slashes_prefix(b);
    if b.len() > 0 && b.last() == SLASH {
        lemma_trim_end_slashes_exact(b.drop_last());
        assert forall|j: int| trim_end_slashes(b).len() <= j < b.len() implies #[trigger] b[j] == SLASH by {
            if j < b.len() - 1 {
                assert(b.drop_last()[j] == b[j]);
            }
        }
    }
}

/// The base URL of a final URL `u`:
/// - for `u` ending in `/`, `u` without its trailing slashes;
/// - otherwise, when the last `/` of `u` (at `p`) lies beyond the `//` of the
///   first `://` (at `q`, or anywhere past the start when there is no `://`),
///   everything before that `/`;
/// - otherwise `u` unchanged.
pub proof fn lemma_base_url_exact(u: Seq<u8>, p: int, q: int)
    ensures
        ({
            let base = base_url_bytes(u);
            let last_slash = 0 <= p < u.len() && u[p] == SLASH && forall|j: int| p < j < u.len() ==> #[trigger] u[j] != SLASH;
            let no_slash = forall|j: int| 0 <= j < u.len() ==> #[trigger] u[j] != SLASH;
            let scheme_at = (matches_at(u, "://".spec_bytes(), q) && forall|k: int|
                0 <= k < q ==> !#[trigger] matches_at(u, "://".spec_bytes(), k)) || (q == -2 && forall|k: int|
                !#[trigger] matches_at(u, "://".spec_bytes(), k));
            let ends_slash = u.len() > 0 && u.last() == SLASH;
            &&& ends_slash ==> base == u.subrange(0, base.len() as int) && !(base.len() > 0 && base.last() == SLASH)
                && forall|j: int| base.len() <= j < u.len() ==> #[trigger] u[j] == SLASH
            &&& !ends_slash && last_slash && scheme_at && p > q + 2 ==> base == u.subrange(0, p)
            &&& !ends_slash && last_slash && scheme_at && p <= q + 2 ==> base == u
            &&& !ends_slash && no_slash ==> base == u
        }),
{
    reveal_strlit("://");
    crate::text::lemma_ascii_literal_bytes("://");
    assert(scheme_separator() =~= "://".spec_bytes());
    lemma_trim_end_slashes_exact(u);
    let t = trim_end_slashes(u);
    lemma_rfind_byte_props(t, SLASH);
    crate::text::lemma_find_from_props(t, scheme_separator(), 0);
    if !(u.len() > 0 && u.last() == SLASH) {
        assert(t == u);
        if 0 <= p < u.len() && u[p] == SLASH && forall|j: int| p < j < u.len() ==> #[trigger] u[j] != SLASH {
            let r = rfind_byte_in(t, SLASH);
            assert(r == Some(p)) by {
                if let Some(x) = r {
                    assert(!(x < p));
                    assert(!(p < x));
                }
            }
            match find_from(t, scheme_separator(), 0) {
                Some(x) => {
                    if matches_at(u, "://".spec_bytes(), q) && forall|k: int| 0 <= k < q ==> !#[trigger] matches_at(u, "://".spec_bytes(), k) {
                        assert(!(x < q));
                        assert(!(q < x));
                    }
                },
                None => {
                    if matches_at(u, "://".spec_bytes(), q) {
                        assert(false);
                    }
                },
            }
        }
    }
}

} // verus!
