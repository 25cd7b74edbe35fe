//! Discovery of resource references in HTML and JavaScript text.
use vstd::prelude::*;
use vstd::string::*;
use vstd::utf8::*;
use crate::text::{
    ascii_lower, at_boundary, bytes_end_with, bytes_match_at, contains, ends_with, find_byte,
    find_byte_from, find_bytes, find_bytes_ic, find_from, find_from_ic, find_quote, find_quote_from,
    lemma_ascii_step, lemma_decode_view, lemma_find_byte_from_props, lemma_find_from_ic_props,
    lemma_find_from_props, lemma_find_quote_props, lemma_push_all_unique_step, lemma_rfind_byte_props,
    lemma_str_valid, matches_at, matches_at_ic, owned, push_all_unique, push_str, push_unique_string, rfind_byte,
    rfind_byte_in, starts_with, str_trim_start, substr, trim_start_index, trim_start_ws, views,
};

verus! {

/// The ASCII double quote.
pub const DQ: u8 = 0x22;

/// The ASCII single quote.
pub const SQ: u8 = 0x27;

/// The quoted value at the start of `b` (after leading white space): the bytes
/// between an opening `"` or `'` and the next occurrence of the same quote;
/// empty when `b` does not start that way or the quote is never closed.
pub open spec fn quoted_value(b: Seq<u8>) -> Seq<u8> {
    let t = trim_start_ws(b);
    if t.len() > 0 && (t[0] == DQ || t[0] == SQ) {
        match find_byte_from(t, t[0], 1) {
            Some(e) => t.subrange(1, e),
            None => Seq::empty(),
        }
    } else {
        Seq::empty()
    }
}

proof fn lemma_find_byte_shift(b: Seq<u8>, s: int, c: u8, f: int)
    requires
        0 <= s <= b.len(),
        0 <= f,
    ensures
        find_byte_from(b.subrange(s, b.len() as int), c, f) == match find_byte_from(b, c, s + f) {
            Some(i) => Some(i - s),
            None => None::<int>,
        },
    decreases b.len() - s - f,
{
    let t = b.subrange(s, b.len() as int);
    if f >= t.len() {
    } else {
        assert(t[f] == b[s + f]);
        if t[f] != c {
            lemma_find_byte_shift(b, s, c, f + 1);
        }
    }
}

/// Extracts a single- or double-quoted value from the beginning of `input`
/// (after leading white space); empty when there is none.
#[verifier::rlimit(30)]
pub fn extract_quoted_value(input: &str) -> (r: &str)
    ensures
        r.spec_bytes() == quoted_value(input.spec_bytes()),
{
    proof {
        lemma_str_valid(input);
    }
    let b = input.as_bytes();
    let start = trim_start_index(b, 0);
    let ghost t = b@.subrange(start as int, b@.len() as int);
    proof {
        assert(b@.subrange(0, b@.len() as int) =~= b@);
    }
    if start < b.len() && (b[start] == DQ || b[start] == SQ) {
        let q = b[start];
        assert(t[0] == q);
        proof {
            lemma_find_byte_shift(b@, start as int, q, 1);
        }
        match find_byte(b, q, start + 1) {
            Some(e) => {
                proof {
                    lemma_find_byte_from_props(b@, q, start + 1);
                    lemma_ascii_step(b@, start as int);
                    assert(t.subrange(1, e - start) =~= b@.subrange(start + 1, e as int));
                }
                return substr(input, start + 1, e);
            },
            None => {},
        }
    }
    substr(input, b.len(), b.len())
}


/// The bytes of `from`.
pub open spec fn from_keyword() -> Seq<u8> {
    seq![0x66u8, 0x72u8, 0x6fu8, 0x6du8]
}

/// The bytes of `./`.
pub open spec fn dot_slash() -> Seq<u8> {
    seq![0x2eu8, 0x2fu8]
}

/// The bytes of `../`.
pub open spec fn dot_dot_slash() -> Seq<u8> {
    seq![0x2eu8, 0x2eu8, 0x2fu8]
}

/// A module specifier that is relative to the importing file.
pub open spec fn is_relative_import(v: Seq<u8>) -> bool {
    starts_with(v, dot_slash()) || starts_with(v, dot_dot_slash())
}

/// The relative module specifiers quoted right after each occurrence of
/// `from` at or after byte `pos` of `b`, in order of occurrence.
pub open spec fn relative_imports(b: Seq<u8>, pos: int) -> Seq<Seq<char>>
    decreases b.len() - pos,
{
    if pos < 0 || pos >= b.len() {
        Seq::empty()
    } else {
        match find_from(b, from_keyword(), pos) {
            None => Seq::empty(),
            Some(i) => {
                proof {
                    lemma_find_from_props(b, from_keyword(), pos);
                }
                let v = quoted_value(trim_start_ws(b.subrange(i + 4, b.len() as int)));
                if is_relative_import(v) {
                    seq![decode_utf8(v)] + relative_imports(b, i + 4)
                } else {
                    relative_imports(b, i + 4)
                }
            },
        }
    }
}

/// Appends to `results` (skipping ones already present) the relative ES module
/// paths written as `from '...'` or `from "..."` in `html`.
pub fn extract_module_imports(html: &str, results: &mut Vec<String>)
    ensures
        views(final(results)@) == push_all_unique(
            views(old(results)@),
            relative_imports(html.spec_bytes(), 0),
        ),
{
    proof {
        lemma_str_valid(html);
    }
    let b = html.as_bytes();
    let kw: [u8; 4] = [0x66, 0x72, 0x6f, 0x6d];
    let dslash: [u8; 2] = [0x2e, 0x2f];
    let ddslash: [u8; 3] = [0x2e, 0x2e, 0x2f];
    proof {
        assert(kw@ =~= from_keyword());
        assert(dslash@ =~= dot_slash());
        assert(ddslash@ =~= dot_dot_slash());
    }
    let ghost all = relative_imports(b@, 0);
    let ghost mut done: Seq<Seq<char>> = Seq::empty();
    let mut pos: usize = 0;
    loop
        invariant
            b@ == html.spec_bytes(),
            valid_utf8(b@),
            kw@ == from_keyword(),
            dslash@ == dot_slash(),
            ddslash@ == dot_dot_slash(),
            all == relative_imports(b@, 0),
            all == done + relative_imports(b@, pos as int),
            views(results@) == push_all_unique(views(old(results)@), done),
        ensures
            views(results@) == push_all_unique(views(old(results)@), all),
        decreases b@.len() - pos,
    {
        if pos >= b.len() {
            assert(done + relative_imports(b@, pos as int) =~= done);
            break;
        }
        let found = find_bytes(b, kw.as_slice(), pos);
        proof {
            lemma_find_from_props(b@, from_keyword(), pos as int);
        }
        let i = match found {
            Some(i) => i,
            None => {
                assert(relative_imports(b@, pos as int) =~= Seq::<Seq<char>>::empty());
                assert(done + relative_imports(b@, pos as int) =~= done);
                break;
            },
        };
        proof {
            assert(b@.subrange(i as int, i + 4)[3] == 0x6d);
            lemma_ascii_step(b@, i + 3);
        }
        let after = str_trim_start(substr(html, i + 4, b.len()));
        let value = extract_quoted_value(after);
        let vb = value.as_bytes();
        let ghost v = vb@;
        if bytes_match_at(vb, dslash.as_slice(), 0) || bytes_match_at(vb, ddslash.as_slice(), 0) {
            proof {
                lemma_decode_view(value);
                lemma_push_all_unique_step(views(old(results)@), done, decode_utf8(v));
                assert(relative_imports(b@, pos as int) == seq![decode_utf8(v)] + relative_imports(
                    b@,
                    i + 4,
                ));
                assert(done + relative_imports(b@, pos as int) =~= done.push(decode_utf8(v))
                    + relative_imports(b@, i + 4));
                done = done.push(decode_utf8(v));
            }
            push_unique_string(results, owned(value));
        } else {
            assert(relative_imports(b@, pos as int) == relative_imports(b@, i + 4));
        }
        pos = i + 4;
    }
}


/// The ASCII `<`.
pub const LT: u8 = 0x3c;

/// The ASCII `>`.
pub const GT: u8 = 0x3e;

/// The ASCII `=`.
pub const EQ: u8 = 0x3d;

/// The bytes that open a tag: `<` and the tag name.
pub open spec fn tag_open_pattern(tag: Seq<u8>) -> Seq<u8> {
    seq![LT] + tag
}

/// The bytes of the attribute name followed by `=`.
pub open spec fn attr_eq_pattern(attr: Seq<u8>) -> Seq<u8> {
    attr + seq![EQ]
}

/// The value of the attribute located by `attr_eq` (searched for ignoring
/// ASCII case) in one tag's text `content`: the quoted value right after it,
/// empty when there is no such attribute or no quoted value.
pub open spec fn tag_attr_value(content: Seq<u8>, attr_eq: Seq<u8>) -> Seq<u8> {
    match find_from_ic(content, attr_eq, 0) {
        None => Seq::empty(),
        Some(ap) => quoted_value(content.subrange(ap + attr_eq.len(), content.len() as int)),
    }
}

/// An ASCII-case-insensitive match of a pattern ending in `=` ends on a
/// character boundary.
proof fn lemma_ic_match_end(b: Seq<u8>, p: Seq<u8>, i: int)
    requires
        valid_utf8(b),
        p.len() > 0,
        p.last() == EQ,
        matches_at_ic(b, p, i),
    ensures
        at_boundary(b, i + p.len()),
{
    let k = i + p.len() - 1;
    assert(b.subrange(i, i + p.len())[p.len() - 1] == b[k]);
    assert(ascii_lower(b[k]) == ascii_lower(p[p.len() - 1]));
    assert(b[k] == EQ);
    lemma_ascii_step(b, k);
}

/// Reads the value of the attribute located by `attr_eq` in one tag's text.
pub fn attr_value_in_tag<'a>(content: &'a str, attr_eq: &[u8]) -> (r: &'a str)
    requires
        attr_eq@.len() > 0,
        attr_eq@.last() == EQ,
    ensures
        r.spec_bytes() == tag_attr_value(content.spec_bytes(), attr_eq@),
{
    let cbytes = content.as_bytes();
    proof {
        lemma_find_from_ic_props(cbytes@, attr_eq@, 0);
        lemma_str_valid(content);
    }
    match find_bytes_ic(cbytes, attr_eq, 0) {
        None => substr(content, cbytes.len(), cbytes.len()),
        Some(ap) => {
            let clen = cbytes.len();
            assert(ap + attr_eq@.len() <= clen);
            proof {
                lemma_ic_match_end(cbytes@, attr_eq@, ap as int);
            }
            let off = ap + attr_eq.len();
            extract_quoted_value(substr(content, off, cbytes.len()))
        },
    }
}

/// The non-empty quoted attribute values found by scanning `h` from byte `pos`:
/// each tag starts at the next occurrence of `open` (ignoring ASCII case) and
/// ends at the following `>`, and its value is `tag_attr_value` of its text.
pub open spec fn attr_candidates(h: Seq<u8>, open: Seq<u8>, attr_eq: Seq<u8>, pos: int) -> Seq<Seq<char>>
    decreases h.len() - pos,
{
    if pos < 0 || pos >= h.len() {
        Seq::empty()
    } else {
        match find_from_ic(h, open, pos) {
            None => Seq::empty(),
            Some(start) => {
                proof {
                    lemma_find_from_ic_props(h, open, pos);
                    lemma_find_byte_from_props(h, GT, start);
                }
                match find_byte_from(h, GT, start) {
                    None => Seq::empty(),
                    Some(end) => {
                        let v = tag_attr_value(h.subrange(start, end), attr_eq);
                        let rest = attr_candidates(h, open, attr_eq, end + 1);
                        if v.len() > 0 {
                            seq![decode_utf8(v)] + rest
                        } else {
                            rest
                        }
                    },
                }
            },
        }
    }
}

/// The values `extract_attr_values` appends for these arguments.
pub open spec fn attr_values_of(html: Seq<u8>, tag: Seq<u8>, attr: Seq<u8>) -> Seq<Seq<char>> {
    attr_candidates(html, tag_open_pattern(tag), attr_eq_pattern(attr), 0)
}

/// `a` followed by `b`.
fn concat_bytes(a: &[u8], b: &[u8]) -> (r: Vec<u8>)
    ensures
        r@ == a@ + b@,
{
    let mut r: Vec<u8> = Vec::new();
    let mut i: usize = 0;
    while i < a.len()
        invariant
            i <= a@.len(),
            r@ == a@.subrange(0, i as int),
        decreases a@.len() - i,
    {
        r.push(a[i]);
        proof {
            assert(a@.subrange(0, i + 1) =~= a@.subrange(0, i as int).push(a@[i as int]));
        }
        i = i + 1;
    }
    let mut j: usize = 0;
    while j < b.len()
        invariant
            j <= b@.len(),
            r@ == a@ + b@.subrange(0, j as int),
        decreases b@.len() - j,
    {
        r.push(b[j]);
        proof {
            assert(a@ + b@.subrange(0, j + 1) =~= (a@ + b@.subrange(0, j as int)).push(b@[j as int]));
        }
        j = j + 1;
    }
    proof {
        assert(a@.subrange(0, a@.len() as int) =~= a@);
        assert(b@.subrange(0, b@.len() as int) =~= b@);
    }
    r
}

/// Appends to `results` (skipping ones already present) the non-empty quoted
/// values of attribute `attr` in the `<tag ...>` elements of `html`; tag and
/// attribute names are matched ignoring ASCII case.
pub fn extract_attr_values(html: &str, tag: &str, attr: &str, results: &mut Vec<String>)
    ensures
        views(final(results)@) == push_all_unique(
            views(old(results)@),
            attr_values_of(html.spec_bytes(), tag.spec_bytes(), attr.spec_bytes()),
        ),
{
    let lt: [u8; 1] = [LT];
    let eq: [u8; 1] = [EQ];
    let open = concat_bytes(lt.as_slice(), tag.as_bytes());
    let attr_eq = concat_bytes(attr.as_bytes(), eq.as_slice());
    proof {
        assert(open@ =~= tag_open_pattern(tag.spec_bytes()));
        assert(attr_eq@ =~= attr_eq_pattern(attr.spec_bytes()));
        lemma_str_valid(html);
    }
    let b = html.as_bytes();
    let ghost all = attr_candidates(b@, open@, attr_eq@, 0);
    let ghost mut done: Seq<Seq<char>> = Seq::empty();
    let mut pos: usize = 0;
    loop
        invariant
            b@ == html.spec_bytes(),
            valid_utf8(b@),
            open@.len() > 0,
            open@[0] == LT,
            attr_eq@.len() > 0,
            attr_eq@.last() == EQ,
            pos <= b@.len(),
            at_boundary(b@, pos as int),
            all == attr_candidates(b@, open@, attr_eq@, 0),
            all == done + attr_candidates(b@, open@, attr_eq@, pos as int),
            views(results@) == push_all_unique(views(old(results)@), done),
            open@ == tag_open_pattern(tag.spec_bytes()),
            attr_eq@ == attr_eq_pattern(attr.spec_bytes()),
        ensures
            views(results@) == push_all_unique(views(old(results)@), all),
        decreases b@.len() - pos,
    {
        if pos >= b.len() {
            assert(done + Seq::<Seq<char>>::empty() =~= done);
            break;
        }
        proof {
            lemma_find_from_ic_props(b@, open@, pos as int);
        }
        let start = match find_bytes_ic(b, open.as_slice(), pos) {
            Some(s) => s,
            None => {
                assert(done + Seq::<Seq<char>>::empty() =~= done);
                break;
            },
        };
        proof {
            lemma_find_byte_from_props(b@, GT, start as int);
        }
        let end = match find_byte(b, GT, start) {
            Some(e) => e,
            None => {
                assert(done + Seq::<Seq<char>>::empty() =~= done);
                break;
            },
        };
        proof {
            let m = b@.subrange(start as int, start + open@.len());
            assert(m[0] == b@[start as int]);
            assert(ascii_lower(m[0]) == ascii_lower(open@[0]));
            lemma_ascii_step(b@, end as int);
        }
        let content = substr(html, start, end);
        let value = attr_value_in_tag(content, attr_eq.as_slice());
        if value.as_bytes().len() > 0 {
            proof {
                lemma_decode_view(value);
                let v = decode_utf8(value.spec_bytes());
                lemma_push_all_unique_step(views(old(results)@), done, v);
                let rest = attr_candidates(b@, open@, attr_eq@, end + 1);
                assert(done + (seq![v] + rest) =~= done.push(v) + rest);
                done = done.push(v);
            }
            push_unique_string(results, owned(value));
        }
        pos = end + 1;
    }
}

/// The ASCII `/`.
pub const SLASH: u8 = 0x2f;

/// The bytes of `.wasm`.
pub open spec fn wasm_suffix() -> Seq<u8> {
    seq![0x2eu8, 0x77u8, 0x61u8, 0x73u8, 0x6du8]
}

/// The bytes of `://`.
pub open spec fn scheme_separator() -> Seq<u8> {
    seq![0x3au8, 0x2fu8, 0x2fu8]
}

/// The bytes of a single space.
pub open spec fn space() -> Seq<u8> {
    seq![0x20u8]
}

/// The directory part of a path: the bytes before its last `/`, or empty.
pub open spec fn dir_of(p: Seq<u8>) -> Seq<u8> {
    match rfind_byte_in(p, SLASH) {
        Some(q) => p.subrange(0, q),
        None => Seq::empty(),
    }
}

/// A string literal kept as a `.wasm` reference: it ends in `.wasm` and holds
/// neither `://` nor a space.
pub open spec fn is_wasm_reference(w: Seq<u8>) -> bool {
    ends_with(w, wasm_suffix()) && !contains(w, scheme_separator()) && !contains(w, space())
}

/// `w` resolved against directory `dir` (`dir/w`, or `w` when `dir` is empty).
pub open spec fn resolve_in(dir: Seq<char>, w: Seq<char>) -> Seq<char> {
    if dir.len() == 0 {
        w
    } else {
        dir + seq!['/'] + w
    }
}

/// The bytes of a line feed.
pub open spec fn newline() -> Seq<u8> {
    seq![0x0au8]
}

/// The `.wasm` references among the string literals of `j` from byte `pos`,
/// each resolved against `dir`. A literal runs from a `'` or `"` to the next
/// occurrence of the same quote on the same line; scanning resumes after its
/// closing quote. A quote with no matching quote before the end of its line
/// (a stray apostrophe, say in a comment) opens no literal: scanning resumes
/// right after it.
pub open spec fn wasm_candidates(j: Seq<u8>, dir: Seq<char>, pos: int) -> Seq<Seq<char>>
    decreases j.len() - pos,
{
    if pos < 0 || pos >= j.len() {
        Seq::empty()
    } else {
        match find_quote_from(j, pos) {
            None => Seq::empty(),
            Some(q) => {
                proof {
                    lemma_find_quote_props(j, pos);
                    lemma_find_byte_from_props(j, j[q], q + 1);
                }
                match find_byte_from(j, j[q], q + 1) {
                    None => wasm_candidates(j, dir, q + 1),
                    Some(e) => {
                        let w = j.subrange(q + 1, e);
                        if contains(w, newline()) {
                            wasm_candidates(j, dir, q + 1)
                        } else {
                            let rest = wasm_candidates(j, dir, e + 1);
                            if is_wasm_reference(w) {
                                seq![resolve_in(dir, decode_utf8(w))] + rest
                            } else {
                                rest
                            }
                        }
                    },
                }
            },
        }
    }
}

/// The references `extract_wasm_references` appends for these arguments.
pub open spec fn wasm_references_of(js: Seq<u8>, js_path: Seq<u8>) -> Seq<Seq<char>> {
    wasm_candidates(js, decode_utf8(dir_of(js_path)), 0)
}

/// The directory part of `path`.
pub fn dir_part(path: &str) -> (r: &str)
    ensures
        r.spec_bytes() == dir_of(path.spec_bytes()),
{
    proof {
        lemma_str_valid(path);
    }
    let pb = path.as_bytes();
    proof {
        assert(pb@.subrange(0, pb@.len() as int) =~= pb@);
        lemma_rfind_byte_props(pb@, SLASH);
    }
    match rfind_byte(pb, SLASH, pb.len()) {
        Some(q) => substr(path, 0, q),
        None => substr(path, 0, 0),
    }
}

/// Appends to `results` (skipping ones already present) the `.wasm` files that
/// the string literals of the JavaScript `js` name, resolved against the
/// directory of `js_path`.
pub fn extract_wasm_references(js: &str, js_path: &str, results: &mut Vec<String>)
    ensures
        views(final(results)@) == push_all_unique(
            views(old(results)@),
            wasm_references_of(js.spec_bytes(), js_path.spec_bytes()),
        ),
{
    proof {
        lemma_str_valid(js);
    }
    let dir = dir_part(js_path);
    let dir_empty = dir.as_bytes().len() == 0;
    proof {
        lemma_decode_view(dir);
        reveal_strlit("/");
    }
    let b = js.as_bytes();
    let wasm: [u8; 5] = [0x2e, 0x77, 0x61, 0x73, 0x6d];
    let sep: [u8; 3] = [0x3a, 0x2f, 0x2f];
    let sp: [u8; 1] = [0x20];
    let nl: [u8; 1] = [0x0a];
    proof {
        assert(nl@ =~= newline());
        assert(wasm@ =~= wasm_suffix());
        assert(sep@ =~= scheme_separator());
        assert(sp@ =~= space());
    }
    let ghost d = decode_utf8(dir.spec_bytes());
    let ghost all = wasm_candidates(b@, d, 0);
    let ghost mut done: Seq<Seq<char>> = Seq::empty();
    let mut pos: usize = 0;
    loop
        invariant
            b@ == js.spec_bytes(),
            valid_utf8(b@),
            wasm@ == wasm_suffix(),
            sep@ == scheme_separator(),
            sp@ == space(),
            nl@ == newline(),
            d == decode_utf8(dir.spec_bytes()),
            d == dir@,
            dir_empty == (dir.spec_bytes().len() == 0),
            "/"@ == seq!['/'],
            all == wasm_references_of(js.spec_bytes(), js_path.spec_bytes()),
            all == done + wasm_candidates(b@, d, pos as int),
            views(results@) == push_all_unique(views(old(results)@), done),
        ensures
            views(results@) == push_all_unique(views(old(results)@), all),
        decreases b@.len() - pos,
    {
        if pos >= b.len() {
            assert(done + Seq::<Seq<char>>::empty() =~= done);
            break;
        }
        proof {
            lemma_find_quote_props(b@, pos as int);
        }
        let q = match find_quote(b, pos) {
            Some(q) => q,
            None => {
                assert(done + Seq::<Seq<char>>::empty() =~= done);
                break;
            },
        };
        proof {
            lemma_find_byte_from_props(b@, b@[q as int], q + 1);
        }
        let e = match find_byte(b, b[q], q + 1) {
            Some(e) => e,
            None => {
                pos = q + 1;
                continue;
            },
        };
        proof {
            lemma_ascii_step(b@, q as int);
        }
        let w = substr(js, q + 1, e);
        let wb = w.as_bytes();
        if find_bytes(wb, nl.as_slice(), 0).is_some() {
            pos = q + 1;
            continue;
        }
        if bytes_end_with(wb, wasm.as_slice()) && find_bytes(wb, sep.as_slice(), 0).is_none()
            && find_bytes(wb, sp.as_slice(), 0).is_none() {
            let resolved = if dir_empty {
                owned(w)
            } else {
                let mut r = owned(dir);
                push_str(&mut r, "/");
                push_str(&mut r, w);
                r
            };
            proof {
                lemma_decode_view(w);
                let v = resolve_in(d, decode_utf8(wb@));
                assert(resolved@ == v);
                lemma_push_all_unique_step(views(old(results)@), done, v);
                let rest = wasm_candidates(b@, d, e + 1);
                assert(done + (seq![v] + rest) =~= done.push(v) + rest);
                done = done.push(v);
            }
            push_unique_string(results, resolved);
        }
        pos = e + 1;
    }
}

/// The quoted specifier right after a `from` that starts at byte `i`.
pub open spec fn specifier_after(b: Seq<u8>, i: int) -> Seq<u8> {
    quoted_value(trim_start_ws(b.subrange(i + 4, b.len() as int)))
}

proof fn lemma_import_literals()
    ensures
        from_keyword() == "from".spec_bytes(),
        dot_slash() == "./".spec_bytes(),
        dot_dot_slash() == "../".spec_bytes(),
{
    reveal_strlit("from");
    reveal_strlit("./");
    reveal_strlit("../");
    crate::text::lemma_ascii_literal_bytes("from");
    crate::text::lemma_ascii_literal_bytes("./");
    crate::text::lemma_ascii_literal_bytes("../");
    assert(from_keyword() =~= "from".spec_bytes());
    assert(dot_slash() =~= "./".spec_bytes());
    assert(dot_dot_slash() =~= "../".spec_bytes());
}

/// A relative import found from byte `pos` on.
pub open spec fn import_at(b: Seq<u8>, pos: int, i: int, v: Seq<char>) -> bool {
    &&& pos <= i
    &&& matches_at(b, "from".spec_bytes(), i)
    &&& (starts_with(specifier_after(b, i), "./".spec_bytes()) || starts_with(specifier_after(b, i), "../".spec_bytes()))
    &&& v == decode_utf8(specifier_after(b, i))
}

proof fn lemma_relative_imports_from(b: Seq<u8>, pos: int)
    requires
        0 <= pos,
    ensures
        forall|v: Seq<char>| #[trigger] relative_imports(b, pos).contains(v) <==> exists|i: int| import_at(b, pos, i, v),
    decreases b.len() - pos,
{
    lemma_import_literals();
    let f = from_keyword();
    if pos >= b.len() {
        assert forall|v: Seq<char>| #[trigger] relative_imports(b, pos).contains(v) <==> exists|i: int| import_at(b, pos, i, v) by {
            if exists|i: int| import_at(b, pos, i, v) {
                let i = choose|i: int| import_at(b, pos, i, v);
                assert(i + 4 <= b.len());
            }
        }
    } else {
        lemma_find_from_props(b, f, pos);
        match find_from(b, f, pos) {
            None => {
                assert forall|v: Seq<char>| #[trigger] relative_imports(b, pos).contains(v) <==> exists|i: int| import_at(b, pos, i, v) by {
                    if exists|i: int| import_at(b, pos, i, v) {
                        let i = choose|i: int| import_at(b, pos, i, v);
                        assert(matches_at(b, f, i));
                    }
                }
            },
            Some(i) => {
                let next = i + 4;
                lemma_relative_imports_from(b, next);
                let rest = relative_imports(b, next);
                let q = specifier_after(b, i);
                assert forall|j: int| i < j < i + 4 implies !#[trigger] matches_at(b, f, j) by {
                    if matches_at(b, f, j) {
                        assert(b.subrange(j, j + 4)[0] == b[j]);
                        assert(b.subrange(i, i + 4)[j - i] == b[j]);
                    }
                }
                assert forall|v: Seq<char>| #[trigger] relative_imports(b, pos).contains(v) <==> exists|k: int| import_at(b, pos, k, v) by {
                    let r = relative_imports(b, pos);
                    if r.contains(v) {
                        if is_relative_import(q) && v == decode_utf8(q) {
                            assert(import_at(b, pos, i, v));
                        } else {
                            let k = choose|k: int| 0 <= k < r.len() && r[k] == v;
                            if is_relative_import(q) {
                                assert(r == seq![decode_utf8(q)] + rest);
                                assert(k > 0);
                                assert(rest[k - 1] == v);
                            }
                            assert(rest.contains(v));
                            let j = choose|j: int| import_at(b, next, j, v);
                            assert(import_at(b, pos, j, v));
                        }
                    }
                    if exists|k: int| import_at(b, pos, k, v) {
                        let k = choose|k: int| import_at(b, pos, k, v);
                        assert(matches_at(b, f, k));
                        if k == i {
                            assert(is_relative_import(q));
                            assert(r[0] == v);
                        } else {
                            assert(!(k < i));
                            assert(k >= i + 4);
                            assert(import_at(b, next, k, v));
                            assert(rest.contains(v));
                            let m = choose|m: int| 0 <= m < rest.len() && rest[m] == v;
                            if is_relative_import(q) {
                                assert(r == seq![decode_utf8(q)] + rest);
                                assert(r[m + 1] == v);
                            } else {
                                assert(r[m] == v);
                            }
                        }
                    }
                }
            },
        }
    }
}

/// The relative imports found in a text are exactly the specifiers quoted
/// right after an occurrence of `from` that start with `./` or `../`.
pub proof fn lemma_relative_imports_exact(b: Seq<u8>)
    ensures
        forall|v: Seq<char>|
            #[trigger] relative_imports(b, 0).contains(v) <==> exists|i: int|
                matches_at(b, "from".spec_bytes(), i) && (starts_with(specifier_after(b, i), "./".spec_bytes())
                    || starts_with(specifier_after(b, i), "../".spec_bytes())) && v == decode_utf8(specifier_after(b, i)),
{
    lemma_relative_imports_from(b, 0);
    assert forall|v: Seq<char>|
        #[trigger] relative_imports(b, 0).contains(v) <==> exists|i: int|
            matches_at(b, "from".spec_bytes(), i) && (starts_with(specifier_after(b, i), "./".spec_bytes())
                || starts_with(specifier_after(b, i), "../".spec_bytes())) && v == decode_utf8(specifier_after(b, i)) by {
        if relative_imports(b, 0).contains(v) {
            let i = choose|i: int| import_at(b, 0, i, v);
        }
        if exists|i: int|
            matches_at(b, "from".spec_bytes(), i) && (starts_with(specifier_after(b, i), "./".spec_bytes())
                || starts_with(specifier_after(b, i), "../".spec_bytes())) && v == decode_utf8(specifier_after(b, i)) {
            let i = choose|i: int|
                matches_at(b, "from".spec_bytes(), i) && (starts_with(specifier_after(b, i), "./".spec_bytes())
                    || starts_with(specifier_after(b, i), "../".spec_bytes())) && v == decode_utf8(specifier_after(b, i));
            assert(import_at(b, 0, i, v));
        }
    }
}

/// A `.wasm` string literal of `j`: an opening quote at `q`, the same quote
/// again at `e` with neither that quote nor a line feed between them, and
/// between them text ending in `.wasm` that holds neither `://` nor a space.
pub open spec fn wasm_literal_at(j: Seq<u8>, q: int, e: int) -> bool {
    let w = j.subrange(q + 1, e);
    &&& 0 <= q < e < j.len()
    &&& (j[q] == 0x22 || j[q] == 0x27)
    &&& j[e] == j[q]
    &&& forall|k: int| q < k < e ==> #[trigger] j[k] != j[q] && j[k] != 0x0a
    &&& matches_at(w, ".wasm".spec_bytes(), w.len() - 5)
    &&& !contains(w, "://".spec_bytes())
    &&& !contains(w, " ".spec_bytes())
}

proof fn lemma_wasm_literals()
    ensures
        wasm_suffix() == ".wasm".spec_bytes(),
        scheme_separator() == "://".spec_bytes(),
        space() == " ".spec_bytes(),
{
    reveal_strlit(".wasm");
    reveal_strlit("://");
    reveal_strlit(" ");
    crate::text::lemma_ascii_literal_bytes(".wasm");
    crate::text::lemma_ascii_literal_bytes("://");
    crate::text::lemma_ascii_literal_bytes(" ");
    assert(wasm_suffix() =~= ".wasm".spec_bytes());
    assert(scheme_separator() =~= "://".spec_bytes());
    assert(space() =~= " ".spec_bytes());
}

proof fn lemma_no_newline(w: Seq<u8>)
    requires
        !contains(w, newline()),
    ensures
        forall|k: int| 0 <= k < w.len() ==> #[trigger] w[k] != 0x0a,
{
    crate::text::lemma_find_from_props(w, newline(), 0);
    assert forall|k: int| 0 <= k < w.len() implies #[trigger] w[k] != 0x0a by {
        if w[k] == 0x0a {
            assert(w.subrange(k, k + 1) =~= newline());
            assert(matches_at(w, newline(), k));
        }
    }
}

/// `v` is a `.wasm` string literal of `j` that starts at or after `pos`,
/// resolved against `dir`.
pub open spec fn from_wasm_literal(j: Seq<u8>, dir: Seq<char>, pos: int, v: Seq<char>) -> bool {
    exists|q: int, e: int|
        pos <= q && #[trigger] wasm_literal_at(j, q, e) && v == resolve_in(dir, decode_utf8(j.subrange(q + 1, e)))
}

proof fn lemma_from_wasm_literal_earlier(j: Seq<u8>, dir: Seq<char>, pos: int, next: int, v: Seq<char>)
    requires
        pos <= next,
        from_wasm_literal(j, dir, next, v),
    ensures
        from_wasm_literal(j, dir, pos, v),
{
    let (q, e) = choose|q: int, e: int|
        next <= q && #[trigger] wasm_literal_at(j, q, e) && v == resolve_in(dir, decode_utf8(j.subrange(q + 1, e)));
    assert(pos <= q && wasm_literal_at(j, q, e) && v == resolve_in(dir, decode_utf8(j.subrange(q + 1, e))));
}

proof fn lemma_wasm_candidates_sound(j: Seq<u8>, dir: Seq<char>, pos: int)
    requires
        0 <= pos,
    ensures
        forall|i: int|
            0 <= i < wasm_candidates(j, dir, pos).len() ==> from_wasm_literal(
                j,
                dir,
                pos,
                #[trigger] wasm_candidates(j, dir, pos)[i],
            ),
    decreases j.len() - pos,
{
    lemma_wasm_literals();
    let r = wasm_candidates(j, dir, pos);
    if pos < j.len() {
        lemma_find_quote_props(j, pos);
        if let Some(q) = find_quote_from(j, pos) {
            lemma_find_byte_from_props(j, j[q], q + 1);
            let skip = q + 1;
            let rs = wasm_candidates(j, dir, skip);
            match find_byte_from(j, j[q], q + 1) {
                None => {
                    lemma_wasm_candidates_sound(j, dir, skip);
                    assert forall|i: int| 0 <= i < r.len() implies from_wasm_literal(j, dir, pos, #[trigger] r[i]) by {
                        assert(r[i] == rs[i]);
                        lemma_from_wasm_literal_earlier(j, dir, pos, skip, r[i]);
                    }
                },
                Some(e) => {
                    let w = j.subrange(q + 1, e);
                    if contains(w, newline()) {
                        lemma_wasm_candidates_sound(j, dir, skip);
                        assert forall|i: int| 0 <= i < r.len() implies from_wasm_literal(j, dir, pos, #[trigger] r[i]) by {
                            assert(r[i] == rs[i]);
                            lemma_from_wasm_literal_earlier(j, dir, pos, skip, r[i]);
                        }
                    } else {
                        let next = e + 1;
                        lemma_wasm_candidates_sound(j, dir, next);
                        let rest = wasm_candidates(j, dir, next);
                        lemma_no_newline(w);
                        assert forall|k: int| q < k < e implies #[trigger] j[k] != j[q] && j[k] != 0x0a by {
                            assert(w[k - q - 1] == j[k]);
                        }
                        assert forall|i: int| 0 <= i < r.len() implies from_wasm_literal(j, dir, pos, #[trigger] r[i]) by {
                            if is_wasm_reference(w) {
                                if i == 0 {
                                    assert(wasm_literal_at(j, q, e));
                                    assert(r[0] == resolve_in(dir, decode_utf8(w)));
                                } else {
                                    assert(r[i] == rest[i - 1]);
                                    lemma_from_wasm_literal_earlier(j, dir, pos, next, r[i]);
                                }
                            } else {
                                assert(r[i] == rest[i]);
                                lemma_from_wasm_literal_earlier(j, dir, pos, next, r[i]);
                            }
                        }
                    }
                },
            }
        }
    }
}

/// Every reference found in a script comes from one of its `.wasm` string
/// literals, resolved against the script's directory.
pub proof fn lemma_wasm_references_sound(js: Seq<u8>, js_path: Seq<u8>)
    ensures
        forall|i: int|
            0 <= i < wasm_references_of(js, js_path).len() ==> from_wasm_literal(
                js,
                decode_utf8(dir_of(js_path)),
                0,
                #[trigger] wasm_references_of(js, js_path)[i],
            ),
{
    lemma_wasm_candidates_sound(js, decode_utf8(dir_of(js_path)), 0);
}

/// A script that is a single `.wasm` string literal references exactly that
/// file, resolved against the script's directory.
pub proof fn lemma_single_wasm_literal(w: Seq<u8>, quote: u8, js_path: Seq<u8>)
    requires
        quote == 0x22 || quote == 0x27,
        forall|k: int| 0 <= k < w.len() ==> #[trigger] w[k] != quote && w[k] != 0x0a,
        matches_at(w, ".wasm".spec_bytes(), w.len() - 5),
        !contains(w, "://".spec_bytes()),
        !contains(w, " ".spec_bytes()),
    ensures
        wasm_references_of(seq![quote] + w + seq![quote], js_path) == seq![
            resolve_in(decode_utf8(dir_of(js_path)), decode_utf8(w)),
        ],
{
    lemma_wasm_literals();
    let j = seq![quote] + w + seq![quote];
    let dir = decode_utf8(dir_of(js_path));
    let e: int = (w.len() + 1) as int;
    assert(j[0] == quote);
    assert(j[e] == quote);
    assert(find_quote_from(j, 0) == Some(0int));
    assert forall|k: int| 1 <= k < e implies #[trigger] j[k] != quote by {
        assert(j[k] == w[k - 1]);
    }
    lemma_find_byte_from_props(j, quote, 1);
    assert(find_byte_from(j, quote, 1) == Some(e)) by {
        if let Some(x) = find_byte_from(j, quote, 1) {
            assert(!(x < e));
        }
    }
    assert(j.subrange(1, e) =~= w);
    crate::text::lemma_find_from_props(w, newline(), 0);
    assert(!contains(w, newline())) by {
        if let Some(k) = find_from(w, newline(), 0) {
            assert(w.subrange(k, k + 1)[0] == w[k]);
        }
    }
    assert(wasm_candidates(j, dir, e + 1) == Seq::<Seq<char>>::empty());
}

} // verus!
