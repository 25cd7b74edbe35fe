//! Serving cached files over the `euv://` scheme: request paths, script
//! injection into the index page, and the responses sent back.
use vstd::prelude::*;
use vstd::string::*;
use vstd::utf8::*;
use crate::paths::{extension_of, mime_for, mime_of};
use crate::snapshot::pair_views;
use crate::text::{
    at_boundary, bytes_end_with, ends_with, find_bytes, find_from, lemma_ascii_step,
    lemma_find_from_props, lemma_match_end_boundary, lemma_str_valid, lossy_utf8_of, matches_at,
    owned, push_str, str_eq, substr, utf8_lossy,
};

verus! {

/// JavaScript snippet injected into the index page to reload it when the
/// backend emits `euv://reload`.
pub const RELOAD_LISTENER_SCRIPT: &'static str = r#"<script>
(function(){
  if(window.__TAURI__&&window.__TAURI__.event){
    window.__TAURI__.event.listen('euv://reload',function(){
      window.location.reload();
    });
  } else {
    document.addEventListener('DOMContentLoaded',function(){
      var t=setInterval(function(){
        if(window.__TAURI__&&window.__TAURI__.event){
          clearInterval(t);
          window.__TAURI__.event.listen('euv://reload',function(){
            window.location.reload();
          });
        }
      },100);
      setTimeout(function(){clearInterval(t);},10000);
    });
  }
})();
</script>"#;

/// Snippet injected into the index page to tell it to render edge to edge,
/// under the status bar: it sets the `__EUV_IMMERSIVE__` flag that the page
/// reads.
pub const IMMERSIVE_SCRIPT: &'static str = r#"<script>window.__EUV_IMMERSIVE__=true;</script>"#;

/// Debug panel snippet injected into the index page in debug builds; its
/// `{{SOURCE}}` and `{{PATH}}` placeholders are filled in before injection.
pub const DEBUG_PANEL_SCRIPT: &'static str = r#"<script>
(function(){
  var expanded=false;
  var bar=document.createElement('div');
  bar.id='__euv_debug_bar';
  bar.style.cssText='position:fixed;bottom:0;left:0;right:0;height:36px;background:#1a1a2e;color:#0f0;font:13px/36px monospace;padding:0 12px;z-index:2147483647;cursor:pointer;user-select:none;display:flex;align-items:center;box-shadow:0 -2px 8px rgba(0,0,0,0.5);';
  bar.textContent='\u25B2 [DEBUG] source: {{SOURCE}} | tap to expand';

  var panel=document.createElement('div');
  panel.id='__euv_debug_panel';
  panel.style.cssText='position:fixed;bottom:0;left:0;right:0;height:50vh;background:#0d0d1a;color:#0f0;font:12px monospace;z-index:2147483646;display:none;flex-direction:column;box-shadow:0 -4px 16px rgba(0,0,0,0.7);';

  var header=document.createElement('div');
  header.style.cssText='padding:8px 12px;background:#1a1a2e;border-bottom:1px solid #333;flex-shrink:0;display:flex;justify-content:space-between;align-items:center;';
  header.innerHTML='<span style="color:#0f0;font-weight:bold;">EUV Debug Console</span><span id="__euv_close" style="color:#f55;cursor:pointer;font-size:18px;">\u2716</span>';

  var info=document.createElement('div');
  info.style.cssText='padding:6px 12px;background:#111;border-bottom:1px solid #222;flex-shrink:0;color:#aaa;font-size:11px;word-break:break-all;';
  info.textContent='source: {{SOURCE}} | path: {{PATH}}';

  var logArea=document.createElement('div');
  logArea.id='__euv_debug_logs';
  logArea.style.cssText='flex:1;overflow-y:auto;padding:8px 12px;';

  panel.appendChild(header);
  panel.appendChild(info);
  panel.appendChild(logArea);

  function toggle(){
    expanded=!expanded;
    if(expanded){
      panel.style.display='flex';
      bar.style.bottom='50vh';
      bar.textContent='\u25BC [DEBUG] source: {{SOURCE}} | tap to collapse';
    } else {
      panel.style.display='none';
      bar.style.bottom='0';
      bar.textContent='\u25B2 [DEBUG] source: {{SOURCE}} | tap to expand';
    }
  }
  bar.addEventListener('click',toggle);

  function addLog(msg){
    var line=document.createElement('div');
    line.style.cssText='padding:2px 0;border-bottom:1px solid #1a1a2e;color:#0f0;word-break:break-all;';
    var now=new Date();
    var ts=now.getHours().toString().padStart(2,'0')+':'+now.getMinutes().toString().padStart(2,'0')+':'+now.getSeconds().toString().padStart(2,'0')+'.'+now.getMilliseconds().toString().padStart(3,'0');
    line.textContent='['+ts+'] '+msg;
    logArea.appendChild(line);
    logArea.scrollTop=logArea.scrollHeight;
  }

  function initListener(){
    if(window.__TAURI__&&window.__TAURI__.event){
      window.__TAURI__.event.listen('euv://debug-log',function(e){
        addLog(e.payload||'');
      });
      addLog('[panel] listener registered');
      addLog('[panel] source: {{SOURCE}}');
      addLog('[panel] path: {{PATH}}');
    } else {
      var t=setInterval(function(){
        if(window.__TAURI__&&window.__TAURI__.event){
          clearInterval(t);
          window.__TAURI__.event.listen('euv://debug-log',function(e){
            addLog(e.payload||'');
          });
          addLog('[panel] listener registered');
          addLog('[panel] source: {{SOURCE}}');
          addLog('[panel] path: {{PATH}}');
        }
      },100);
      setTimeout(function(){clearInterval(t);},10000);
    }
  }

  document.addEventListener('DOMContentLoaded',function(){
    document.body.appendChild(panel);
    document.body.appendChild(bar);
    document.getElementById('__euv_close').addEventListener('click',function(e){
      e.stopPropagation();
      toggle();
    });
    initListener();
  });
})();
</script>"#;

/// The value of an ASCII hexadecimal digit.
pub open spec fn hex_digit(c: u8) -> Option<u8> {
    if 0x30 <= c <= 0x39 {
        Some((c - 0x30) as u8)
    } else if 0x61 <= c <= 0x66 {
        Some((c - 0x61 + 10) as u8)
    } else if 0x41 <= c <= 0x46 {
        Some((c - 0x41 + 10) as u8)
    } else {
        None
    }
}

/// Percent-decoding: each `%` followed by two hexadecimal digits becomes the
/// byte they denote; every other byte is kept.
pub open spec fn percent_decoded(b: Seq<u8>) -> Seq<u8>
    decreases b.len(),
{
    if b.len() == 0 {
        Seq::empty()
    } else if b[0] == 0x25 && b.len() >= 3 && hex_digit(b[1]) is Some && hex_digit(b[2]) is Some {
        seq![(hex_digit(b[1])->0 * 16 + hex_digit(b[2])->0) as u8] + percent_decoded(b.subrange(3, b.len() as int))
    } else {
        seq![b[0]] + percent_decoded(b.subrange(1, b.len() as int))
    }
}

/// Calls `percent_encoding::percent_decode_str` and collects the decoded bytes.
/// The contract states the decoding that the crate documents: every `%`
/// followed by two hexadecimal digits is decoded, other bytes pass through.
#[verifier::external_body]
fn percent_decode(s: &str) -> (r: Vec<u8>)
    ensures
        r@ == percent_decoded(s.spec_bytes()),
{
    percent_encoding::percent_decode_str(s).collect()
}

/// `b` without its leading slashes.
pub open spec fn trim_start_slashes(b: Seq<u8>) -> Seq<u8>
    decreases b.len(),
{
    if b.len() > 0 && b[0] == 0x2f {
        trim_start_slashes(b.subrange(1, b.len() as int))
    } else {
        b
    }
}

/// The file path a request URI path asks for: without leading slashes,
/// percent-decoded, and read as UTF-8 with invalid sequences replaced.
pub open spec fn request_file_path(uri_path: Seq<u8>) -> Seq<char> {
    lossy_utf8_of(percent_decoded(trim_start_slashes(uri_path)))
}

/// Decodes the path of a request URI into the cached file path it names.
pub fn request_path(uri_path: &str) -> (r: String)
    ensures
        r@ == request_file_path(uri_path.spec_bytes()),
{
    proof {
        lemma_str_valid(uri_path);
    }
    let b = uri_path.as_bytes();
    let mut i: usize = 0;
    proof {
        assert(b@.subrange(0, b@.len() as int) =~= b@);
    }
    while i < b.len() && b[i] == 0x2f
        invariant
            b@ == uri_path.spec_bytes(),
            valid_utf8(b@),
            i <= b@.len(),
            at_boundary(b@, i as int),
            trim_start_slashes(b@) == trim_start_slashes(b@.subrange(i as int, b@.len() as int)),
        decreases b@.len() - i,
    {
        proof {
            lemma_ascii_step(b@, i as int);
            assert(b@.subrange(i as int, b@.len() as int).subrange(1, b@.len() - i) =~= b@.subrange(
                i + 1,
                b@.len() as int,
            ));
        }
        i = i + 1;
    }
    let rest = substr(uri_path, i, b.len());
    let decoded = percent_decode(rest);
    utf8_lossy(decoded.as_slice())
}

/// The request is for the index page: an empty path or `index.html`.
pub open spec fn is_index_request(p: Seq<char>) -> bool {
    p.len() == 0 || p == "index.html"@
}

/// Whether a decoded request path names the index page.
pub fn is_index_path(p: &str) -> (r: bool)
    ensures
        r == is_index_request(p@),
{
    p.is_empty() || str_eq(p, "index.html")
}

/// A path separator: `/`, or `\` as on Windows.
pub open spec fn is_separator_byte(c: u8) -> bool {
    c == 0x2f || c == 0x5c
}

/// A `..` segment starts at byte `i` of the path `b`.
pub open spec fn parent_segment_at(b: Seq<u8>, i: int) -> bool {
    &&& 0 <= i
    &&& i + 2 <= b.len()
    &&& b[i] == 0x2e
    &&& b[i + 1] == 0x2e
    &&& (i == 0 || is_separator_byte(b[i - 1]))
    &&& (i + 2 == b.len() || is_separator_byte(b[i + 2]))
}

/// An ASCII letter.
pub open spec fn is_ascii_letter(c: u8) -> bool {
    (0x41 <= c <= 0x5a) || (0x61 <= c <= 0x7a)
}

/// The path starts with a drive prefix such as `C:`.
pub open spec fn has_drive_prefix(b: Seq<u8>) -> bool {
    b.len() >= 2 && is_ascii_letter(b[0]) && b[1] == 0x3a
}

/// A path that would name a file outside the directory it is joined to on
/// any of the targets: an absolute path (starting with a separator or a drive
/// prefix), or one with a `..` segment. `\` counts as a separator, as it
/// does on Windows; on Android such a name is refused too.
pub open spec fn leaves_directory(b: Seq<u8>) -> bool {
    ||| (b.len() > 0 && is_separator_byte(b[0]))
    ||| has_drive_prefix(b)
    ||| exists|i: int| parent_segment_at(b, i)
}

/// Whether the decoded request path `p` leaves the directory it is joined to.
pub fn escapes_directory(p: &str) -> (r: bool)
    ensures
        r == leaves_directory(p.spec_bytes()),
{
    let b = p.as_bytes();
    if b.len() > 0 && (b[0] == 0x2f || b[0] == 0x5c) {
        return true;
    }
    if b.len() >= 2 && ((0x41 <= b[0] && b[0] <= 0x5a) || (0x61 <= b[0] && b[0] <= 0x7a)) && b[1] == 0x3a {
        return true;
    }
    let mut i: usize = 0;
    while i < b.len() && i + 1 < b.len()
        invariant
            b@ == p.spec_bytes(),
            i <= b@.len(),
            forall|k: int| 0 <= k < i ==> !#[trigger] parent_segment_at(b@, k),
        decreases b@.len() - i,
    {
        if b[i] == 0x2e && b[i + 1] == 0x2e && (i == 0 || b[i - 1] == 0x2f || b[i - 1] == 0x5c) && (i + 2
            == b.len() || b[i + 2] == 0x2f || b[i + 2] == 0x5c) {
            assert(parent_segment_at(b@, i as int));
            return true;
        }
        i = i + 1;
    }
    assert forall|k: int| !#[trigger] parent_segment_at(b@, k) by {
        if 0 <= k < i {
        }
    }
    false
}

/// The file a request is served from, relative to the active version
/// directory; `None` for a path that would leave that directory.
pub fn served_file_name(p: &str) -> (r: Option<String>)
    ensures
        leaves_directory(p.spec_bytes()) ==> r is None,
        !leaves_directory(p.spec_bytes()) ==> (r matches Some(n) && n@ == if is_index_request(p@) {
            "index.html"@
        } else {
            p@
        }),
{
    if escapes_directory(p) {
        None
    } else if is_index_path(p) {
        Some(owned("index.html"))
    } else {
        Some(owned(p))
    }
}

/// `rep` inserted before every character of the UTF-8 text `s` and at its
/// end: before every byte that is not a continuation byte, and after the last.
pub open spec fn insert_around_chars(s: Seq<u8>, rep: Seq<u8>) -> Seq<u8>
    decreases s.len(),
{
    if s.len() == 0 {
        rep
    } else if is_continuation_byte(s[0]) {
        seq![s[0]] + insert_around_chars(s.drop_first(), rep)
    } else {
        rep + seq![s[0]] + insert_around_chars(s.drop_first(), rep)
    }
}

/// `s` with every non-overlapping occurrence of `pat`, scanning left to right,
/// replaced by `rep` (`str::replace`); an empty `pat` matches before every
/// character and at the end.
pub open spec fn replace_all(s: Seq<u8>, pat: Seq<u8>, rep: Seq<u8>) -> Seq<u8>
    decreases s.len(),
{
    if pat.len() == 0 {
        insert_around_chars(s, rep)
    } else if s.len() == 0 {
        s
    } else if matches_at(s, pat, 0) {
        rep + replace_all(s.subrange(pat.len() as int, s.len() as int), pat, rep)
    } else {
        seq![s[0]] + replace_all(s.subrange(1, s.len() as int), pat, rep)
    }
}

proof fn lemma_replace_skip(s: Seq<u8>, pat: Seq<u8>, rep: Seq<u8>, pos: int, i: int)
    requires
        pat.len() > 0,
        0 <= pos <= i <= s.len(),
        forall|j: int| pos <= j < i ==> !#[trigger] matches_at(s, pat, j),
    ensures
        replace_all(s.subrange(pos, s.len() as int), pat, rep) == s.subrange(pos, i) + replace_all(
            s.subrange(i, s.len() as int),
            pat,
            rep,
        ),
    decreases i - pos,
{
    let t = s.subrange(pos, s.len() as int);
    if pos < i {
        assert(!matches_at(s, pat, pos));
        if matches_at(t, pat, 0) {
            assert(t.subrange(0, pat.len() as int) =~= s.subrange(pos, pos + pat.len()));
        }
        assert(t.subrange(1, t.len() as int) =~= s.subrange(pos + 1, s.len() as int));
        lemma_replace_skip(s, pat, rep, pos + 1, i);
        assert(s.subrange(pos, i) =~= seq![s[pos]] + s.subrange(pos + 1, i));
    } else {
        assert(s.subrange(pos, i) =~= Seq::<u8>::empty());
    }
}

/// The continuation bytes of `b` between `i` and `j` followed by the rest:
/// inserting around characters passes over them.
proof fn lemma_insert_skip_continuations(b: Seq<u8>, rep: Seq<u8>, i: int, j: int)
    requires
        0 <= i <= j <= b.len(),
        forall|k: int| i <= k < j ==> is_continuation_byte(#[trigger] b[k]),
    ensures
        insert_around_chars(b.subrange(i, b.len() as int), rep) == b.subrange(i, j)
            + insert_around_chars(b.subrange(j, b.len() as int), rep),
    decreases j - i,
{
    if i < j {
        let t = b.subrange(i, b.len() as int);
        assert(t[0] == b[i]);
        assert(t.drop_first() =~= b.subrange(i + 1, b.len() as int));
        lemma_insert_skip_continuations(b, rep, i + 1, j);
        assert(b.subrange(i, j) =~= seq![b[i]] + b.subrange(i + 1, j));
    } else {
        assert(b.subrange(i, j) =~= Seq::<u8>::empty());
    }
}

/// `rep` inserted before every character of `s` and at its end.
fn insert_around(s: &str, rep: &str) -> (r: String)
    ensures
        encode_utf8(r@) == insert_around_chars(s.spec_bytes(), rep.spec_bytes()),
{
    proof {
        lemma_str_valid(s);
    }
    let b = s.as_bytes();
    let mut out = String::new();
    let mut pos: usize = 0;
    proof {
        assert(b@.subrange(0, b@.len() as int) =~= b@);
    }
    while pos < b.len()
        invariant
            b@ == s.spec_bytes(),
            valid_utf8(b@),
            pos <= b@.len(),
            at_boundary(b@, pos as int),
            encode_utf8(out@) + insert_around_chars(b@.subrange(pos as int, b@.len() as int), rep.spec_bytes())
                == insert_around_chars(b@, rep.spec_bytes()),
        decreases b@.len() - pos,
    {
        let mut next: usize = pos + 1;
        while next < b.len() && 0x80 <= b[next] && b[next] <= 0xbf
            invariant
                pos < next <= b@.len(),
                forall|k: int| pos < k < next ==> is_continuation_byte(#[trigger] b@[k]),
            decreases b@.len() - next,
        {
            next = next + 1;
        }
        proof {
            let t = b@.subrange(pos as int, b@.len() as int);
            assert(t[0] == b@[pos as int]);
            assert(!is_continuation_byte(b@[pos as int]));
            assert(t.drop_first() =~= b@.subrange(pos + 1, b@.len() as int));
            lemma_insert_skip_continuations(b@, rep.spec_bytes(), pos + 1, next as int);
            assert(b@.subrange(pos as int, next as int) =~= seq![b@[pos as int]] + b@.subrange(pos + 1, next as int));
        }
        let piece = substr(s, pos, next);
        let ghost before = out@;
        push_str(&mut out, rep);
        let ghost mid = out@;
        push_str(&mut out, piece);
        proof {
            crate::text::lemma_encode_concat(before, rep@);
            crate::text::lemma_encode_concat(mid, piece@);
        }
        pos = next;
    }
    let ghost before = out@;
    push_str(&mut out, rep);
    proof {
        crate::text::lemma_encode_concat(before, rep@);
        assert(b@.subrange(pos as int, b@.len() as int) =~= Seq::<u8>::empty());
    }
    out
}

/// Replaces every occurrence of `pat` in `s` with `rep`.
pub fn replace_str(s: &str, pat: &str, rep: &str) -> (r: String)
    ensures
        encode_utf8(r@) == replace_all(s.spec_bytes(), pat.spec_bytes(), rep.spec_bytes()),
{
    proof {
        lemma_str_valid(s);
        lemma_str_valid(pat);
    }
    let b = s.as_bytes();
    let pb = pat.as_bytes();
    if pb.len() == 0 {
        return insert_around(s, rep);
    }
    let mut out = String::new();
    let mut pos: usize = 0;
    proof {
        assert(b@.subrange(0, b@.len() as int) =~= b@);
    }
    loop
        invariant
            b@ == s.spec_bytes(),
            pb@ == pat.spec_bytes(),
            pb@.len() > 0,
            valid_utf8(b@),
            valid_utf8(pb@),
            pos <= b@.len(),
            at_boundary(b@, pos as int),
            encode_utf8(out@) + replace_all(b@.subrange(pos as int, b@.len() as int), pb@, rep.spec_bytes())
                == replace_all(b@, pb@, rep.spec_bytes()),
        decreases b@.len() - pos,
    {
        proof {
            lemma_find_from_props(b@, pb@, pos as int);
        }
        match find_bytes(b, pb, pos) {
            None => {
                proof {
                    lemma_replace_skip(b@, pb@, rep.spec_bytes(), pos as int, b@.len() as int);
                    assert(b@.subrange(b@.len() as int, b@.len() as int) =~= Seq::<u8>::empty());
                }
                let tail = substr(s, pos, b.len());
                let ghost before = out@;
                push_str(&mut out, tail);
                proof {
                    crate::text::lemma_encode_concat(before, tail@);
                    assert(encode_utf8(out@) =~= encode_utf8(before) + b@.subrange(pos as int, b@.len() as int));
                }
                return out;
            },
            Some(i) => {
                proof {
                    lemma_replace_skip(b@, pb@, rep.spec_bytes(), pos as int, i as int);
                    assert(valid_first_scalar(pb@));
                    assert(b@.subrange(i as int, i + pb@.len())[0] == b@[i as int]);
                    lemma_match_end_boundary(b@, pb@, i as int);
                    let t = b@.subrange(i as int, b@.len() as int);
                    assert(t.subrange(0, pb@.len() as int) =~= b@.subrange(i as int, i + pb@.len()));
                    assert(t.subrange(pb@.len() as int, t.len() as int) =~= b@.subrange(
                        i + pb@.len(),
                        b@.len() as int,
                    ));
                }
                let piece = substr(s, pos, i);
                let ghost before = out@;
                push_str(&mut out, piece);
                let ghost mid = out@;
                push_str(&mut out, rep);
                proof {
                    crate::text::lemma_encode_concat(before, piece@);
                    crate::text::lemma_encode_concat(mid, rep@);
                }
                let blen = b.len();
                assert(i + pb@.len() <= blen);
                pos = i + pb.len();
            },
        }
    }
}


/// `x` inserted into the page `h` before its first `</head>`, else before its
/// first `<body`, else at the start.
pub open spec fn injected(h: Seq<u8>, x: Seq<u8>) -> Seq<u8> {
    match find_from(h, "</head>".spec_bytes(), 0) {
        Some(p) => h.subrange(0, p) + x + h.subrange(p, h.len() as int),
        None => match find_from(h, "<body".spec_bytes(), 0) {
            Some(p) => h.subrange(0, p) + x + h.subrange(p, h.len() as int),
            None => x + h,
        },
    }
}

/// `html` with `scripts` inserted at `p`, a boundary.
fn insert_at(html: &str, p: usize, scripts: &str) -> (r: String)
    requires
        p <= html.spec_bytes().len(),
        at_boundary(html.spec_bytes(), p as int),
    ensures
        encode_utf8(r@) == html.spec_bytes().subrange(0, p as int) + scripts.spec_bytes()
            + html.spec_bytes().subrange(p as int, html.spec_bytes().len() as int),
{
    proof {
        lemma_str_valid(html);
    }
    let head = substr(html, 0, p);
    let tail = substr(html, p, html.as_bytes().len());
    let mut r = owned(head);
    let ghost a = r@;
    push_str(&mut r, scripts);
    let ghost b = r@;
    push_str(&mut r, tail);
    proof {
        crate::text::lemma_encode_concat(a, scripts@);
        crate::text::lemma_encode_concat(b, tail@);
    }
    r
}

/// Inserts the extra scripts into the index page.
pub fn inject_scripts(html: &str, scripts: &str) -> (r: String)
    ensures
        encode_utf8(r@) == injected(html.spec_bytes(), scripts.spec_bytes()),
{
    proof {
        lemma_str_valid(html);
        lemma_str_valid("</head>");
        lemma_str_valid("<body");
        reveal_strlit("</head>");
        reveal_strlit("<body");
        crate::text::lemma_encode_nonempty("</head>"@);
        crate::text::lemma_encode_nonempty("<body"@);
    }
    let b = html.as_bytes();
    let head_close = "</head>".as_bytes();
    let body_open = "<body".as_bytes();
    proof {
        lemma_find_from_props(b@, head_close@, 0);
        lemma_find_from_props(b@, body_open@, 0);
    }
    if let Some(p) = find_bytes(b, head_close, 0) {
        proof {
            crate::text::lemma_match_start_boundary(b@, head_close@, p as int);
        }
        return insert_at(html, p, scripts);
    }
    if let Some(p) = find_bytes(b, body_open, 0) {
        proof {
            crate::text::lemma_match_start_boundary(b@, body_open@, p as int);
        }
        return insert_at(html, p, scripts);
    }
    proof {
        assert(b@.subrange(0, 0) + scripts.spec_bytes() + b@.subrange(0, b@.len() as int) =~= scripts.spec_bytes() + b@);
    }
    insert_at(html, 0, scripts)
}

/// The debug panel with its placeholders filled in.
pub open spec fn debug_panel(source: Seq<u8>, dir_path: Seq<u8>) -> Seq<u8> {
    replace_all(
        replace_all(DEBUG_PANEL_SCRIPT.spec_bytes(), "{{SOURCE}}".spec_bytes(), source),
        "{{PATH}}".spec_bytes(),
        dir_path,
    )
}

/// The scripts injected into the index page: the immersive snippet and the
/// reload listener, followed in debug builds by the debug panel showing
/// `source` and `dir_path`.
pub open spec fn index_scripts_bytes(debug: bool, source: Seq<u8>, dir_path: Seq<u8>) -> Seq<u8> {
    let base = IMMERSIVE_SCRIPT.spec_bytes() + RELOAD_LISTENER_SCRIPT.spec_bytes();
    if debug {
        base + debug_panel(source, dir_path)
    } else {
        base
    }
}

/// Builds the scripts injected into the index page.
pub fn index_scripts(debug: bool, source: &str, dir_path: &str) -> (r: String)
    ensures
        encode_utf8(r@) == index_scripts_bytes(debug, source.spec_bytes(), dir_path.spec_bytes()),
{
    let mut r = owned(IMMERSIVE_SCRIPT);
    let ghost first = r@;
    push_str(&mut r, RELOAD_LISTENER_SCRIPT);
    proof {
        crate::text::lemma_encode_concat(first, RELOAD_LISTENER_SCRIPT@);
    }
    if debug {
        proof {
            reveal_strlit("{{SOURCE}}");
            reveal_strlit("{{PATH}}");
        }
        let step = replace_str(DEBUG_PANEL_SCRIPT, "{{SOURCE}}", source);
        let panel = replace_str(step.as_str(), "{{PATH}}", dir_path);
        let ghost before = r@;
        push_str(&mut r, panel.as_str());
        proof {
            crate::text::lemma_encode_concat(before, panel@);
        }
    }
    r
}

/// A response to send back: status, headers and body.
pub struct ResponsePlan {
    /// The HTTP status code.
    pub status: u16,
    /// The headers, in order.
    pub headers: Vec<(String, String)>,
    /// The body.
    pub body: Vec<u8>,
}

/// The headers of a served file.
pub open spec fn file_headers(p: Seq<u8>) -> Seq<(Seq<char>, Seq<char>)> {
    let base = seq![
        ("Content-Type"@, mime_of(extension_of(p))),
        ("Cache-Control"@, "no-store, no-cache, must-revalidate"@),
        ("Pragma"@, "no-cache"@),
        ("Access-Control-Allow-Origin"@, "*"@),
    ];
    if ends_with(p, ".wasm".spec_bytes()) {
        base + seq![
            ("Cross-Origin-Embedder-Policy"@, "require-corp"@),
            ("Cross-Origin-Opener-Policy"@, "same-origin"@),
        ]
    } else {
        base
    }
}

/// The body served for a file read from the cache: the index page as text
/// with the scripts injected, any other file unchanged.
pub open spec fn file_body(p: Seq<char>, data: Seq<u8>, scripts: Seq<u8>) -> Seq<u8> {
    if is_index_request(p) {
        injected(encode_utf8(lossy_utf8_of(data)), scripts)
    } else {
        data
    }
}

fn header(name: &str, value: &str) -> (r: (String, String))
    ensures
        r.0@ == name@,
        r.1@ == value@,
{
    (owned(name), owned(value))
}

/// The `200` response for a file read from the cache under `request_path`.
pub fn file_response(request_path: &str, data: Vec<u8>, scripts: &str) -> (r: ResponsePlan)
    ensures
        r.status == 200,
        pair_views(r.headers@) == file_headers(request_path.spec_bytes()),
        r.body@ == file_body(request_path@, data@, scripts.spec_bytes()),
{
    let mut headers: Vec<(String, String)> = Vec::new();
    headers.push(header("Content-Type", mime_for(request_path)));
    headers.push(header("Cache-Control", "no-store, no-cache, must-revalidate"));
    headers.push(header("Pragma", "no-cache"));
    headers.push(header("Access-Control-Allow-Origin", "*"));
    if bytes_end_with(request_path.as_bytes(), ".wasm".as_bytes()) {
        headers.push(header("Cross-Origin-Embedder-Policy", "require-corp"));
        headers.push(header("Cross-Origin-Opener-Policy", "same-origin"));
    }
    proof {
        assert(pair_views(headers@) =~= file_headers(request_path.spec_bytes()));
    }
    let body = if is_index_path(request_path) {
        let html = utf8_lossy(data.as_slice());
        let page = inject_scripts(html.as_str(), scripts);
        page.as_str().as_bytes_vec()
    } else {
        data
    };
    ResponsePlan { status: 200, headers, body }
}

/// The `404` response for a file missing from the cache.
pub fn not_found_response() -> (r: ResponsePlan)
    ensures
        r.status == 404,
        pair_views(r.headers@) == seq![("Content-Type"@, "text/plain"@)],
        r.body@ == "Not found".spec_bytes(),
{
    let mut headers: Vec<(String, String)> = Vec::new();
    headers.push(header("Content-Type", "text/plain"));
    proof {
        assert(pair_views(headers@) =~= seq![("Content-Type"@, "text/plain"@)]);
    }
    ResponsePlan { status: 404, headers, body: "Not found".as_bytes_vec() }
}

/// The `500` response when the cache directory cannot be resolved.
pub fn internal_error_response() -> (r: ResponsePlan)
    ensures
        r.status == 500,
        r.headers@.len() == 0,
        r.body@ == "Internal error".spec_bytes(),
{
    ResponsePlan { status: 500, headers: Vec::new(), body: "Internal error".as_bytes_vec() }
}

/// The `503` response when no cache became active in time.
pub fn not_ready_response() -> (r: ResponsePlan)
    ensures
        r.status == 503,
        r.headers@.len() == 0,
        r.body@ == "Cache not ready".spec_bytes(),
{
    ResponsePlan { status: 503, headers: Vec::new(), body: "Cache not ready".as_bytes_vec() }
}

/// The first wait, in milliseconds, while polling for an active cache.
pub const INITIAL_WAIT_MILLIS: u64 = 2;

/// The longest wait, in milliseconds, between polls for an active cache.
pub const MAX_WAIT_MILLIS: u64 = 64;

/// How long, in milliseconds, to wait for an active cache before answering `503`.
pub const CACHE_READY_TIMEOUT_MILLIS: u64 = 2000;

/// The next wait of the exponential backoff: doubled, capped at `MAX_WAIT_MILLIS`.
pub fn next_wait_millis(wait: u64) -> (r: u64)
    requires
        wait <= u64::MAX / 2,
    ensures
        r == if 2 * wait < MAX_WAIT_MILLIS {
            2 * wait
        } else {
            MAX_WAIT_MILLIS as int
        },
{
    let doubled = wait * 2;
    if doubled < MAX_WAIT_MILLIS {
        doubled
    } else {
        MAX_WAIT_MILLIS
    }
}

/// The cache source shown for the served page.
pub open spec fn source_label(active: bool) -> Seq<char> {
    if active {
        "active"@
    } else {
        "none"@
    }
}

/// The cache source label: `active` when a version is active, else `none`.
pub fn cache_source(active: bool) -> (r: &'static str)
    ensures
        r@ == source_label(active),
{
    if active {
        "active"
    } else {
        "none"
    }
}

/// Cached page metadata reported to the webview.
pub struct CachedPage {
    /// Whether the page is served from the local cache.
    pub from_cache: bool,
    /// The remote URL of the cached page.
    pub remote_url: String,
    /// The cache source status (`active` or `none`).
    pub source: String,
    /// The local filesystem path of the active version directory, or empty.
    pub cache_path: String,
}

/// Describes the cache for the webview, given the path of the active version
/// directory (if a version is active) and the remote URL.
pub fn cached_page(active_dir: Option<String>, remote_url: &str) -> (r: CachedPage)
    ensures
        r.from_cache == active_dir is Some,
        r.remote_url@ == remote_url@,
        r.source@ == source_label(active_dir is Some),
        r.cache_path@ == match active_dir {
            Some(d) => d@,
            None => Seq::<char>::empty(),
        },
{
    let from_cache = active_dir.is_some();
    let source = owned(cache_source(from_cache));
    let cache_path = match active_dir {
        Some(d) => d,
        None => String::new(),
    };
    CachedPage { from_cache, remote_url: owned(remote_url), source, cache_path }
}


/// Injection inserts the scripts at one place and keeps the page otherwise
/// intact: the result is a prefix of the page, the scripts, and the rest.
pub proof fn lemma_injection_keeps_page(h: Seq<u8>, x: Seq<u8>)
    ensures
        exists|p: int|
            0 <= p <= h.len() && #[trigger] injected(h, x) == h.subrange(0, p) + x + h.subrange(
                p,
                h.len() as int,
            ),
{
    lemma_find_from_props(h, "</head>".spec_bytes(), 0);
    lemma_find_from_props(h, "<body".spec_bytes(), 0);
    match find_from(h, "</head>".spec_bytes(), 0) {
        Some(p) => {
            assert(injected(h, x) == h.subrange(0, p) + x + h.subrange(p, h.len() as int));
        },
        None => match find_from(h, "<body".spec_bytes(), 0) {
            Some(p) => {
                assert(injected(h, x) == h.subrange(0, p) + x + h.subrange(p, h.len() as int));
            },
            None => {
                assert(injected(h, x) =~= h.subrange(0, 0) + x + h.subrange(0, h.len() as int));
            },
        },
    }
}

/// The backoff never exceeds `MAX_WAIT_MILLIS` and never shortens a wait
/// that is within it.
pub proof fn lemma_backoff_bounded(wait: u64)
    requires
        wait <= MAX_WAIT_MILLIS,
    ensures
        ({
            let next = if 2 * wait < MAX_WAIT_MILLIS {
                2 * wait
            } else {
                MAX_WAIT_MILLIS as int
            };
            wait <= next <= MAX_WAIT_MILLIS
        }),
{
}

/// Where the scripts go: right before the first `</head>`; in a page without
/// `</head>`, right before the first `<body`; in a page with neither, at the
/// start.
pub proof fn lemma_injection_place(h: Seq<u8>, x: Seq<u8>, p: int)
    ensures
        matches_at(h, "</head>".spec_bytes(), p) && (forall|j: int| 0 <= j < p ==> !#[trigger] matches_at(h, "</head>".spec_bytes(), j))
            ==> injected(h, x) == h.subrange(0, p) + x + h.subrange(p, h.len() as int),
        (forall|j: int| !#[trigger] matches_at(h, "</head>".spec_bytes(), j)) && matches_at(h, "<body".spec_bytes(), p)
            && (forall|j: int| 0 <= j < p ==> !#[trigger] matches_at(h, "<body".spec_bytes(), j))
            ==> injected(h, x) == h.subrange(0, p) + x + h.subrange(p, h.len() as int),
        (forall|j: int| !#[trigger] matches_at(h, "</head>".spec_bytes(), j)) && (forall|j: int|
            !#[trigger] matches_at(h, "<body".spec_bytes(), j)) ==> injected(h, x) == x + h,
{
    lemma_find_from_props(h, "</head>".spec_bytes(), 0);
    lemma_find_from_props(h, "<body".spec_bytes(), 0);
    match find_from(h, "</head>".spec_bytes(), 0) {
        Some(q) => {
            if matches_at(h, "</head>".spec_bytes(), p) && (forall|j: int| 0 <= j < p ==> !#[trigger] matches_at(h, "</head>".spec_bytes(), j)) {
                assert(!(q < p));
                assert(!(p < q));
            }
        },
        None => match find_from(h, "<body".spec_bytes(), 0) {
            Some(q) => {
                if matches_at(h, "<body".spec_bytes(), p) && (forall|j: int| 0 <= j < p ==> !#[trigger] matches_at(h, "<body".spec_bytes(), j)) {
                    assert(!(q < p));
                    assert(!(p < q));
                }
            },
            None => {},
        },
    }
}

/// Every served file is sent with its MIME type first, no caching and open
/// CORS; a `.wasm` file, and only such a file, also gets the cross-origin
/// isolation headers. The index page (an empty path or `index.html`) is sent
/// with the scripts injected; any other file is sent unchanged.
pub proof fn lemma_served_file(p: Seq<char>, data: Seq<u8>, scripts: Seq<u8>)
    ensures
        ({
            let b = encode_utf8(p);
            let h = file_headers(b);
            let coep = ("Cross-Origin-Embedder-Policy"@, "require-corp"@);
            let coop = ("Cross-Origin-Opener-Policy"@, "same-origin"@);
            &&& h.len() >= 4
            &&& h[0] == ("Content-Type"@, mime_of(extension_of(b)))
            &&& h.contains(("Cache-Control"@, "no-store, no-cache, must-revalidate"@))
            &&& h.contains(("Pragma"@, "no-cache"@))
            &&& h.contains(("Access-Control-Allow-Origin"@, "*"@))
            &&& (matches_at(b, ".wasm".spec_bytes(), b.len() - ".wasm".spec_bytes().len()) <==> h.contains(coep))
            &&& (matches_at(b, ".wasm".spec_bytes(), b.len() - ".wasm".spec_bytes().len()) <==> h.contains(coop))
            &&& (p.len() == 0 || p == "index.html"@) ==> file_body(p, data, scripts) == injected(
                encode_utf8(lossy_utf8_of(data)),
                scripts,
            )
            &&& !(p.len() == 0 || p == "index.html"@) ==> file_body(p, data, scripts) == data
        }),
{
    let b = encode_utf8(p);
    let h = file_headers(b);
    let coep = ("Cross-Origin-Embedder-Policy"@, "require-corp"@);
    let coop = ("Cross-Origin-Opener-Policy"@, "same-origin"@);
    reveal_strlit("Cross-Origin-Embedder-Policy");
    reveal_strlit("Cross-Origin-Opener-Policy");
    reveal_strlit("Content-Type");
    reveal_strlit("Cache-Control");
    reveal_strlit("Pragma");
    reveal_strlit("Access-Control-Allow-Origin");
    assert(h[1] == ("Cache-Control"@, "no-store, no-cache, must-revalidate"@));
    assert(h[2] == ("Pragma"@, "no-cache"@));
    assert(h[3] == ("Access-Control-Allow-Origin"@, "*"@));
    if ends_with(b, ".wasm".spec_bytes()) {
        assert(h[4] == coep);
        assert(h[5] == coop);
    } else {
        assert forall|i: int| 0 <= i < h.len() implies h[i] != coep && h[i] != coop by {
            assert(h[i].0.len() != coep.0.len());
            assert(h[i].0.len() != coop.0.len());
        }
    }
}

/// The injected scripts always begin with the immersive snippet followed by
/// the reload listener; the debug panel follows only in debug builds.
pub proof fn lemma_index_scripts_order(debug: bool, source: Seq<u8>, dir_path: Seq<u8>)
    ensures
        ({
            let r = index_scripts_bytes(debug, source, dir_path);
            let i = IMMERSIVE_SCRIPT.spec_bytes();
            let l = RELOAD_LISTENER_SCRIPT.spec_bytes();
            &&& r.len() >= i.len() + l.len()
            &&& r.subrange(0, i.len() as int) == i
            &&& r.subrange(i.len() as int, (i.len() + l.len()) as int) == l
            &&& !debug ==> r.len() == i.len() + l.len()
        }),
{
    let r = index_scripts_bytes(debug, source, dir_path);
    let i = IMMERSIVE_SCRIPT.spec_bytes();
    let l = RELOAD_LISTENER_SCRIPT.spec_bytes();
    assert((i + l).subrange(0, i.len() as int) =~= i);
    assert((i + l).subrange(i.len() as int, (i.len() + l.len()) as int) =~= l);
    if debug {
        let d = debug_panel(source, dir_path);
        assert(r.subrange(0, i.len() as int) =~= i);
        assert(r.subrange(i.len() as int, (i.len() + l.len()) as int) =~= l);
    }
}

} // verus!
