//! Planning a cache snapshot: which resources a page needs, which requests to
//! make, and which files must exist before the snapshot is switched to.
use vstd::prelude::*;
use vstd::string::*;
use vstd::utf8::*;
use crate::cache::CacheError;
use crate::extract::{
    attr_values_of, dir_of, dir_part, extract_attr_values, extract_module_imports,
    extract_wasm_references, relative_imports, resolve_in, wasm_references_of,
};
use crate::paths::{base_url_bytes, clean_path_bytes, clean_relative_path, derive_base_url};
use crate::text::{
    bytes_end_with, bytes_match_at, contains_string, ends_with, lemma_decode_view,
    lemma_push_all_unique_set, lemma_push_all_unique_step,
    lossy_utf8_of, owned, push_all_unique, push_str, starts_with, utf8_lossy, views,
};

verus! {

/// The references a page loads, in discovery order without repeats:
/// `<script src>`, `<link href>`, `<img src>`, then relative module imports.
pub open spec fn page_references(h: Seq<u8>) -> Seq<Seq<char>> {
    push_all_unique(
        push_all_unique(
            push_all_unique(
                push_all_unique(Seq::empty(), attr_values_of(h, "script".spec_bytes(), "src".spec_bytes())),
                attr_values_of(h, "link".spec_bytes(), "href".spec_bytes()),
            ),
            attr_values_of(h, "img".spec_bytes(), "src".spec_bytes()),
        ),
        relative_imports(h, 0),
    )
}

/// Collects the resource references of an HTML page.
pub fn page_resource_paths(html: &str) -> (r: Vec<String>)
    ensures
        views(r@) == page_references(html.spec_bytes()),
{
    let mut paths: Vec<String> = Vec::new();
    proof {
        assert(views(paths@) =~= Seq::<Seq<char>>::empty());
    }
    extract_attr_values(html, "script", "src", &mut paths);
    extract_attr_values(html, "link", "href", &mut paths);
    extract_attr_values(html, "img", "src", &mut paths);
    extract_module_imports(html, &mut paths);
    paths
}

/// A reference that is not fetched relative to the page: `http://`,
/// `https://`, protocol-relative `//` or a `data:` URI.
pub open spec fn is_external_reference(p: Seq<u8>) -> bool {
    ||| starts_with(p, "http://".spec_bytes())
    ||| starts_with(p, "https://".spec_bytes())
    ||| starts_with(p, "//".spec_bytes())
    ||| starts_with(p, "data:".spec_bytes())
}

/// Whether `p` is an external reference.
pub fn is_external(p: &str) -> (r: bool)
    ensures
        r == is_external_reference(p.spec_bytes()),
{
    let b = p.as_bytes();
    bytes_match_at(b, "http://".as_bytes(), 0) || bytes_match_at(b, "https://".as_bytes(), 0)
        || bytes_match_at(b, "//".as_bytes(), 0) || bytes_match_at(b, "data:".as_bytes(), 0)
}

/// The references of `refs` that are not external, in order.
pub open spec fn local_references(refs: Seq<Seq<char>>) -> Seq<Seq<char>>
    decreases refs.len(),
{
    if refs.len() == 0 {
        Seq::empty()
    } else {
        let rest = local_references(refs.drop_last());
        if is_external_reference(encode_utf8(refs.last())) {
            rest
        } else {
            rest.push(refs.last())
        }
    }
}

/// The references of a page that a complete snapshot must contain.
pub fn snapshot_expected_paths(html: &str) -> (r: Vec<String>)
    ensures
        views(r@) == local_references(page_references(html.spec_bytes())),
{
    let all = page_resource_paths(html);
    let mut kept: Vec<String> = Vec::new();
    let mut i: usize = 0;
    while i < all.len()
        invariant
            i <= all@.len(),
            views(kept@) == local_references(views(all@).subrange(0, i as int)),
        decreases all@.len() - i,
    {
        let ghost sub = views(all@).subrange(0, i + 1);
        proof {
            assert(sub.drop_last() =~= views(all@).subrange(0, i as int));
            assert(sub.last() == all@[i as int]@);
        }
        if !is_external(all[i].as_str()) {
            let ghost before = views(kept@);
            kept.push(all[i].clone());
            proof {
                assert(views(kept@) =~= before.push(all@[i as int]@));
            }
        }
        i = i + 1;
    }
    proof {
        assert(views(all@).subrange(0, all@.len() as int) =~= views(all@));
    }
    kept
}


/// The cleaned form of a path (see `clean_relative_path`).
pub open spec fn clean_view(v: Seq<char>) -> Seq<char> {
    decode_utf8(clean_path_bytes(encode_utf8(v)))
}

/// `clean_relative_path` applied to a string.
pub fn clean_string(p: &String) -> (r: String)
    ensures
        r@ == clean_view(p@),
{
    clean_relative_path(p.as_str())
}

/// Each path in cleaned form.
pub fn cleaned_paths(paths: &Vec<String>) -> (r: Vec<String>)
    ensures
        views(r@) == views(paths@).map_values(|v: Seq<char>| clean_view(v)),
{
    let mut r: Vec<String> = Vec::new();
    let mut i: usize = 0;
    while i < paths.len()
        invariant
            i <= paths@.len(),
            r@.len() == i,
            forall|j: int| 0 <= j < i ==> #[trigger] r@[j]@ == clean_view(paths@[j]@),
        decreases paths@.len() - i,
    {
        r.push(clean_string(&paths[i]));
        i = i + 1;
    }
    proof {
        assert(views(r@) =~= views(paths@).map_values(|v: Seq<char>| clean_view(v)));
    }
    r
}

/// A fetch error with the given message.
pub open spec fn is_fetch_error(e: CacheError, msg: Seq<char>) -> bool {
    e matches CacheError::Fetch(m) && m@ == msg
}

/// Rejects an empty page.
pub fn check_page_text(html: &str) -> (r: Result<(), CacheError>)
    ensures
        html@.len() == 0 ==> (r matches Err(e) && is_fetch_error(e, "empty HTML"@)),
        html@.len() > 0 ==> r is Ok,
{
    if html.is_empty() {
        Err(CacheError::Fetch(owned("empty HTML")))
    } else {
        Ok(())
    }
}

/// Rejects a snapshot in which nothing was fetched although the page needs resources.
pub fn check_resource_count(resource_count: usize, expected_count: usize) -> (r: Result<(), CacheError>)
    ensures
        resource_count == 0 && expected_count > 0 ==> (r matches Err(e) && is_fetch_error(
            e,
            "incomplete snapshot: no resources fetched"@,
        )),
        !(resource_count == 0 && expected_count > 0) ==> r is Ok,
{
    if resource_count == 0 && expected_count != 0 {
        Err(CacheError::Fetch(owned("incomplete snapshot: no resources fetched")))
    } else {
        Ok(())
    }
}

/// The error for a critical resource missing from the snapshot.
pub fn missing_resource_error(clean: &str) -> (r: CacheError)
    ensures
        is_fetch_error(r, "incomplete snapshot: missing "@ + clean@),
{
    let mut m = owned("incomplete snapshot: missing ");
    push_str(&mut m, clean);
    CacheError::Fetch(m)
}

/// The error for a WASM module missing from the snapshot.
pub fn missing_wasm_error(clean: &str) -> (r: CacheError)
    ensures
        is_fetch_error(r, "incomplete snapshot: missing WASM "@ + clean@),
{
    let mut m = owned("incomplete snapshot: missing WASM ");
    push_str(&mut m, clean);
    CacheError::Fetch(m)
}

/// The (cleaned path, URL) requests for the non-external references in
/// `paths`, each URL being `base/cleaned`.
pub open spec fn resource_requests_of(paths: Seq<Seq<char>>, base: Seq<char>) -> Seq<(Seq<char>, Seq<char>)>
    decreases paths.len(),
{
    if paths.len() == 0 {
        Seq::empty()
    } else {
        let rest = resource_requests_of(paths.drop_last(), base);
        let p = paths.last();
        if is_external_reference(encode_utf8(p)) {
            rest
        } else {
            rest.push((clean_view(p), base + "/"@ + clean_view(p)))
        }
    }
}

/// The views of a list of string pairs.
pub open spec fn pair_views(v: Seq<(String, String)>) -> Seq<(Seq<char>, Seq<char>)> {
    v.map_values(|t: (String, String)| (t.0@, t.1@))
}

/// Plans the fetches for a list of resource references relative to `base_url`.
pub fn resource_requests(paths: &Vec<String>, base_url: &str) -> (r: Vec<(String, String)>)
    ensures
        pair_views(r@) == resource_requests_of(views(paths@), base_url@),
{
    let mut r: Vec<(String, String)> = Vec::new();
    let mut i: usize = 0;
    while i < paths.len()
        invariant
            i <= paths@.len(),
            pair_views(r@) == resource_requests_of(views(paths@).subrange(0, i as int), base_url@),
        decreases paths@.len() - i,
    {
        let ghost sub = views(paths@).subrange(0, i + 1);
        proof {
            assert(sub.drop_last() =~= views(paths@).subrange(0, i as int));
            assert(sub.last() == paths@[i as int]@);
        }
        if !is_external(paths[i].as_str()) {
            let clean = clean_string(&paths[i]);
            let mut url = owned(base_url);
            push_str(&mut url, "/");
            push_str(&mut url, clean.as_str());
            let ghost before = pair_views(r@);
            r.push((clean, url));
            proof {
                assert(pair_views(r@) =~= before.push((r@.last().0@, r@.last().1@)));
            }
        }
        i = i + 1;
    }
    proof {
        assert(views(paths@).subrange(0, paths@.len() as int) =~= views(paths@));
    }
    r
}

/// A path naming a JavaScript file (`.js` or `.mjs`).
pub open spec fn is_script_path(v: Seq<u8>) -> bool {
    ends_with(v, ".js".spec_bytes()) || ends_with(v, ".mjs".spec_bytes())
}

/// Whether `p` names a JavaScript file.
pub fn is_script(p: &str) -> (r: bool)
    ensures
        r == is_script_path(p.spec_bytes()),
{
    let b = p.as_bytes();
    bytes_end_with(b, ".js".as_bytes()) || bytes_end_with(b, ".mjs".as_bytes())
}

/// The JavaScript paths of `vs`, in order.
pub open spec fn scripts_of(vs: Seq<Seq<char>>) -> Seq<Seq<char>>
    decreases vs.len(),
{
    if vs.len() == 0 {
        Seq::empty()
    } else {
        let rest = scripts_of(vs.drop_last());
        if is_script_path(encode_utf8(vs.last())) {
            rest.push(vs.last())
        } else {
            rest
        }
    }
}

/// The JavaScript file names of the `pkg` directory, as paths under `pkg/`.
pub open spec fn pkg_scripts(names: Seq<Seq<char>>) -> Seq<Seq<char>> {
    scripts_of(names).map_values(|n: Seq<char>| "pkg/"@ + n)
}

/// The JavaScript files to scan for WASM references: the distinct scripts
/// among the verified (cleaned) paths, then the `pkg/` scripts not yet listed.
pub open spec fn scripts_to_scan(verified: Seq<Seq<char>>, pkg_names: Seq<Seq<char>>) -> Seq<Seq<char>> {
    push_all_unique(push_all_unique(Seq::empty(), scripts_of(verified)), pkg_scripts(pkg_names))
}

/// Lists the JavaScript files to scan for WASM references.
pub fn js_files_to_scan(verified: &Vec<String>, pkg_names: &Vec<String>) -> (r: Vec<String>)
    ensures
        views(r@) == scripts_to_scan(views(verified@), views(pkg_names@)),
{
    let mut r: Vec<String> = Vec::new();
    let ghost mut done: Seq<Seq<char>> = Seq::empty();
    let mut i: usize = 0;
    proof {
        assert(views(r@) =~= push_all_unique(Seq::<Seq<char>>::empty(), done));
    }
    while i < verified.len()
        invariant
            i <= verified@.len(),
            done == scripts_of(views(verified@).subrange(0, i as int)),
            views(r@) == push_all_unique(Seq::<Seq<char>>::empty(), done),
        decreases verified@.len() - i,
    {
        let ghost sub = views(verified@).subrange(0, i + 1);
        proof {
            assert(sub.drop_last() =~= views(verified@).subrange(0, i as int));
            assert(sub.last() == verified@[i as int]@);
        }
        if is_script(verified[i].as_str()) {
            proof {
                lemma_push_all_unique_step(Seq::<Seq<char>>::empty(), done, verified@[i as int]@);
                done = done.push(verified@[i as int]@);
            }
            crate::text::push_unique_string(&mut r, verified[i].clone());
        }
        i = i + 1;
    }
    proof {
        assert(views(verified@).subrange(0, verified@.len() as int) =~= views(verified@));
    }
    let ghost first = views(r@);
    let ghost mut extra: Seq<Seq<char>> = Seq::empty();
    let mut k: usize = 0;
    proof {
        assert(push_all_unique(first, extra) == first);
    }
    while k < pkg_names.len()
        invariant
            k <= pkg_names@.len(),
            first == push_all_unique(Seq::<Seq<char>>::empty(), scripts_of(views(verified@))),
            extra == pkg_scripts(views(pkg_names@).subrange(0, k as int)),
            views(r@) == push_all_unique(first, extra),
        decreases pkg_names@.len() - k,
    {
        let ghost sub = views(pkg_names@).subrange(0, k + 1);
        proof {
            assert(sub.drop_last() =~= views(pkg_names@).subrange(0, k as int));
            assert(sub.last() == pkg_names@[k as int]@);
        }
        if is_script(pkg_names[k].as_str()) {
            let mut rel = owned("pkg/");
            push_str(&mut rel, pkg_names[k].as_str());
            proof {
                lemma_push_all_unique_step(first, extra, rel@);
                assert(pkg_scripts(sub) =~= extra.push(rel@));
                extra = extra.push(rel@);
            }
            crate::text::push_unique_string(&mut r, rel);
        } else {
            proof {
                assert(pkg_scripts(sub) =~= extra);
            }
        }
        k = k + 1;
    }
    proof {
        assert(views(pkg_names@).subrange(0, pkg_names@.len() as int) =~= views(pkg_names@));
    }
    r
}


/// The WASM references of the scanned (path, source) JavaScript files, in
/// order without repeats.
pub open spec fn wasm_refs_of_files(files: Seq<(String, String)>) -> Seq<Seq<char>>
    decreases files.len(),
{
    if files.len() == 0 {
        Seq::empty()
    } else {
        push_all_unique(
            wasm_refs_of_files(files.drop_last()),
            wasm_references_of(encode_utf8(files.last().1@), encode_utf8(files.last().0@)),
        )
    }
}

/// The cleaned WASM paths that the scanned JavaScript files reference.
pub fn wasm_to_verify(files: &Vec<(String, String)>) -> (r: Vec<String>)
    ensures
        views(r@) == wasm_refs_of_files(files@).map_values(|x: Seq<char>| clean_view(x)),
{
    let mut refs: Vec<String> = Vec::new();
    let mut i: usize = 0;
    proof {
        assert(views(refs@) =~= Seq::<Seq<char>>::empty());
    }
    while i < files.len()
        invariant
            i <= files@.len(),
            wasm_refs_of_files(files@.subrange(0, i as int)) == views(refs@),
        decreases files@.len() - i,
    {
        let ghost sub = files@.subrange(0, i + 1);
        proof {
            assert(sub.drop_last() =~= files@.subrange(0, i as int));
            assert(sub.last() == files@[i as int]);
        }
        extract_wasm_references(files[i].1.as_str(), files[i].0.as_str(), &mut refs);
        i = i + 1;
    }
    proof {
        assert(files@.subrange(0, files@.len() as int) =~= files@);
    }
    cleaned_paths(&refs)
}

/// The request `(saved path, URL)` for a dependency `r` named by a script in
/// directory `dir` whose final URL has base `base`: it is saved at the cleaned
/// `r`, a `.wasm` literal first resolved against `dir`, and fetched from
/// `base` joined with the cleaned `r`, so that it is found next to the script
/// wherever redirects took it.
pub open spec fn dependency_request(dir: Seq<char>, base: Seq<char>, r: Seq<char>, wasm: bool) -> (Seq<char>, Seq<char>) {
    let saved = if wasm {
        clean_view(resolve_in(dir, r))
    } else {
        clean_view(r)
    };
    (saved, base + "/"@ + clean_view(r))
}

/// The requests for the non-external references `refs`, in order.
pub open spec fn dependency_requests_of(dir: Seq<char>, base: Seq<char>, refs: Seq<Seq<char>>, wasm: bool) -> Seq<
    (Seq<char>, Seq<char>),
>
    decreases refs.len(),
{
    if refs.len() == 0 {
        Seq::empty()
    } else {
        let rest = dependency_requests_of(dir, base, refs.drop_last(), wasm);
        if is_external_reference(encode_utf8(refs.last())) {
            rest
        } else {
            rest.push(dependency_request(dir, base, refs.last(), wasm))
        }
    }
}

/// The requests for the dependencies of one fetched resource: nothing unless
/// it is a script; for a script at `path` fetched from `final_url` with body
/// `body` (read as lossy UTF-8), its `.wasm` literals and then its relative
/// module imports, each without repeats.
pub open spec fn resource_dependency_requests(path: Seq<char>, final_url: Seq<char>, body: Seq<u8>) -> Seq<
    (Seq<char>, Seq<char>),
> {
    if !is_script_path(encode_utf8(path)) {
        Seq::empty()
    } else {
        let js = encode_utf8(lossy_utf8_of(body));
        let dir = decode_utf8(dir_of(encode_utf8(path)));
        let base = decode_utf8(base_url_bytes(encode_utf8(final_url)));
        dependency_requests_of(dir, base, push_all_unique(Seq::empty(), wasm_references_of(js, Seq::empty())), true)
            + dependency_requests_of(dir, base, push_all_unique(Seq::empty(), relative_imports(js, 0)), false)
    }
}

/// Appends the requests for the non-external references `refs`.
fn push_dependency_requests(
    out: &mut Vec<(String, String)>,
    dir: &str,
    base: &str,
    refs: &Vec<String>,
    wasm: bool,
)
    ensures
        pair_views(final(out)@) == pair_views(old(out)@) + dependency_requests_of(dir@, base@, views(refs@), wasm),
{
    proof {
        reveal_strlit("/");
        assert(pair_views(out@) + Seq::<(Seq<char>, Seq<char>)>::empty() =~= pair_views(out@));
    }
    let dir_empty = dir.as_bytes().len() == 0;
    proof {
        if dir@.len() > 0 {
            crate::text::lemma_encode_nonempty(dir@);
        } else {
            assert(dir@ =~= Seq::<char>::empty());
        }
    }
    let ghost start = pair_views(out@);
    let mut i: usize = 0;
    while i < refs.len()
        invariant
            i <= refs@.len(),
            dir_empty == (dir@.len() == 0),
            "/"@ == seq!['/'],
            pair_views(out@) == start + dependency_requests_of(dir@, base@, views(refs@).subrange(0, i as int), wasm),
        decreases refs@.len() - i,
    {
        let ghost sub = views(refs@).subrange(0, i + 1);
        proof {
            assert(sub.drop_last() =~= views(refs@).subrange(0, i as int));
            assert(sub.last() == refs@[i as int]@);
        }
        if !is_external(refs[i].as_str()) {
            let saved = if wasm {
                if dir_empty {
                    clean_string(&refs[i])
                } else {
                    let mut joined = owned(dir);
                    push_str(&mut joined, "/");
                    push_str(&mut joined, refs[i].as_str());
                    clean_string(&joined)
                }
            } else {
                clean_string(&refs[i])
            };
            let clean = clean_string(&refs[i]);
            let mut url = owned(base);
            push_str(&mut url, "/");
            push_str(&mut url, clean.as_str());
            let ghost before = pair_views(out@);
            out.push((saved, url));
            proof {
                assert(pair_views(out@) =~= before.push((out@.last().0@, out@.last().1@)));
            }
        }
        i = i + 1;
    }
    proof {
        assert(views(refs@).subrange(0, refs@.len() as int) =~= views(refs@));
    }
}

/// The requests `(saved path, URL)` for the dependencies of one fetched
/// resource, resolved against the resource's own final URL after redirects.
pub fn dependency_requests(path: &str, final_url: &str, body: &[u8]) -> (r: Vec<(String, String)>)
    ensures
        pair_views(r@) == resource_dependency_requests(path@, final_url@, body@),
{
    let mut r: Vec<(String, String)> = Vec::new();
    proof {
        assert(pair_views(r@) =~= Seq::<(Seq<char>, Seq<char>)>::empty());
    }
    if !is_script(path) {
        return r;
    }
    let js = utf8_lossy(body);
    let mut wasm: Vec<String> = Vec::new();
    let mut imports: Vec<String> = Vec::new();
    proof {
        assert(views(wasm@) =~= Seq::<Seq<char>>::empty());
        reveal_strlit("");
        assert("".spec_bytes() =~= Seq::<u8>::empty());
    }
    extract_wasm_references(js.as_str(), "", &mut wasm);
    extract_module_imports(js.as_str(), &mut imports);
    let dir = dir_part(path);
    let base = derive_base_url(final_url);
    proof {
        lemma_decode_view(dir);
    }
    push_dependency_requests(&mut r, dir, base.as_str(), &wasm, true);
    push_dependency_requests(&mut r, dir, base.as_str(), &imports, false);
    proof {
        assert(Seq::<(Seq<char>, Seq<char>)>::empty() + dependency_requests_of(dir@, base@, views(wasm@), true)
            =~= dependency_requests_of(dir@, base@, views(wasm@), true));
    }
    r
}

/// The dependency requests of all fetched `(saved path, final URL, body)`
/// resources, one resource after another.
pub open spec fn all_dependency_requests(fetched: Seq<(String, String, Vec<u8>)>) -> Seq<(Seq<char>, Seq<char>)>
    decreases fetched.len(),
{
    if fetched.len() == 0 {
        Seq::empty()
    } else {
        let t = fetched.last();
        all_dependency_requests(fetched.drop_last()) + resource_dependency_requests(t.0@, t.1@, t.2@)
    }
}

/// The requests of `rs` whose saved path was not fetched yet, keeping only the
/// first request for each saved path.
pub open spec fn new_requests(rs: Seq<(Seq<char>, Seq<char>)>, fetched: Seq<Seq<char>>) -> Seq<(Seq<char>, Seq<char>)>
    decreases rs.len(),
{
    if rs.len() == 0 {
        Seq::empty()
    } else {
        let kept = new_requests(rs.drop_last(), fetched);
        let c = rs.last().0;
        if !fetched.contains(c) && !kept.map_values(|k: (Seq<char>, Seq<char>)| k.0).contains(c) {
            kept.push(rs.last())
        } else {
            kept
        }
    }
}

/// The dependencies still to fetch after the first round: the requests for
/// what the fetched resources `(saved path, final URL, body)` name, each
/// resolved against its own resource's final URL, that were not fetched.
pub fn extra_dependencies(fetched: &Vec<(String, String, Vec<u8>)>) -> (r: Vec<(String, String)>)
    ensures
        pair_views(r@) == new_requests(
            all_dependency_requests(fetched@),
            fetched@.map_values(|t: (String, String, Vec<u8>)| t.0@),
        ),
{
    let mut all: Vec<(String, String)> = Vec::new();
    let mut i: usize = 0;
    proof {
        assert(pair_views(all@) =~= Seq::<(Seq<char>, Seq<char>)>::empty());
    }
    while i < fetched.len()
        invariant
            i <= fetched@.len(),
            pair_views(all@) == all_dependency_requests(fetched@.subrange(0, i as int)),
        decreases fetched@.len() - i,
    {
        let ghost sub = fetched@.subrange(0, i + 1);
        proof {
            assert(sub.drop_last() =~= fetched@.subrange(0, i as int));
            assert(sub.last() == fetched@[i as int]);
        }
        let reqs = dependency_requests(fetched[i].0.as_str(), fetched[i].1.as_str(), fetched[i].2.as_slice());
        let mut k: usize = 0;
        let ghost before = pair_views(all@);
        proof {
            assert(pair_views(reqs@).subrange(0, 0) =~= Seq::<(Seq<char>, Seq<char>)>::empty());
            assert(before + Seq::<(Seq<char>, Seq<char>)>::empty() =~= before);
        }
        while k < reqs.len()
            invariant
                k <= reqs@.len(),
                pair_views(all@) == before + pair_views(reqs@).subrange(0, k as int),
            decreases reqs@.len() - k,
        {
            let a0 = reqs[k].0.clone();
            let a1 = reqs[k].1.clone();
            let ghost prev = pair_views(all@);
            all.push((a0, a1));
            proof {
                assert(pair_views(all@) =~= prev.push((reqs@[k as int].0@, reqs@[k as int].1@)));
                assert(pair_views(reqs@).subrange(0, k + 1) =~= pair_views(reqs@).subrange(0, k as int).push(
                    pair_views(reqs@)[k as int],
                ));
                assert(pair_views(all@) =~= before + pair_views(reqs@).subrange(0, k + 1));
            }
            k = k + 1;
        }
        proof {
            assert(pair_views(reqs@).subrange(0, reqs@.len() as int) =~= pair_views(reqs@));
        }
        i = i + 1;
    }
    proof {
        assert(fetched@.subrange(0, fetched@.len() as int) =~= fetched@);
    }
    let mut fetched_cleans: Vec<String> = Vec::new();
    let mut j: usize = 0;
    while j < fetched.len()
        invariant
            j <= fetched@.len(),
            fetched_cleans@.len() == j,
            forall|k: int| 0 <= k < j ==> #[trigger] fetched_cleans@[k]@ == fetched@[k].0@,
        decreases fetched@.len() - j,
    {
        fetched_cleans.push(fetched[j].0.clone());
        j = j + 1;
    }
    let ghost fc = fetched@.map_values(|t: (String, String, Vec<u8>)| t.0@);
    proof {
        assert(views(fetched_cleans@) =~= fc);
    }
    let mut kept: Vec<(String, String)> = Vec::new();
    let mut seen: Vec<String> = Vec::new();
    let mut k: usize = 0;
    while k < all.len()
        invariant
            k <= all@.len(),
            views(fetched_cleans@) == fc,
            pair_views(kept@) == new_requests(pair_views(all@).subrange(0, k as int), fc),
            views(seen@) == pair_views(kept@).map_values(|x: (Seq<char>, Seq<char>)| x.0),
        decreases all@.len() - k,
    {
        let ghost sub = pair_views(all@).subrange(0, k + 1);
        proof {
            assert(sub.drop_last() =~= pair_views(all@).subrange(0, k as int));
            assert(sub.last() == (all@[k as int].0@, all@[k as int].1@));
        }
        if !contains_string(&fetched_cleans, &all[k].0) && !contains_string(&seen, &all[k].0) {
            let ghost kb = pair_views(kept@);
            let ghost sb = views(seen@);
            kept.push((all[k].0.clone(), all[k].1.clone()));
            seen.push(all[k].0.clone());
            proof {
                assert(pair_views(kept@) =~= kb.push((all@[k as int].0@, all@[k as int].1@)));
                assert(views(seen@) =~= sb.push(all@[k as int].0@));
                assert(views(seen@) =~= pair_views(kept@).map_values(|x: (Seq<char>, Seq<char>)| x.0));
            }
        }
        k = k + 1;
    }
    proof {
        assert(pair_views(all@).subrange(0, all@.len() as int) =~= pair_views(all@));
    }
    kept
}

/// Decodes the fetched page: its bytes read as UTF-8 with invalid sequences
/// replaced; an empty page is the `empty HTML` fetch error.
pub fn page_text(html_bytes: &[u8]) -> (r: Result<String, CacheError>)
    ensures
        lossy_utf8_of(html_bytes@).len() > 0 ==> (r matches Ok(t) && t@ == lossy_utf8_of(html_bytes@)),
        lossy_utf8_of(html_bytes@).len() == 0 ==> (r matches Err(e) && is_fetch_error(e, "empty HTML"@)),
{
    let html = utf8_lossy(html_bytes);
    match check_page_text(html.as_str()) {
        Ok(()) => Ok(html),
        Err(e) => Err(e),
    }
}

/// The decision taken once a snapshot's files are in place.
#[derive(Debug)]
pub enum SnapshotAction {
    /// Every critical file is present: switch the active version to it.
    Switch,
    /// Remove the snapshot and fail with this error.
    Abandon(CacheError),
}

/// Whether the `i`-th file was reported present.
pub open spec fn reported_present(present: Seq<bool>, i: int) -> bool {
    0 <= i < present.len() && present[i]
}

/// The first index from `k` below `n` whose file was not reported present.
pub open spec fn first_missing(n: int, present: Seq<bool>, k: int) -> Option<int>
    decreases n - k,
{
    if k >= n {
        None
    } else if !reported_present(present, k) {
        Some(k)
    } else {
        first_missing(n, present, k + 1)
    }
}

proof fn lemma_first_missing(n: int, present: Seq<bool>, k: int)
    requires
        0 <= k,
    ensures
        first_missing(n, present, k) is None <==> forall|i: int| k <= i < n ==> #[trigger] reported_present(present, i),
        first_missing(n, present, k) matches Some(i) ==> k <= i < n && !reported_present(present, i),
    decreases n - k,
{
    if k < n {
        lemma_first_missing(n, present, k + 1);
    }
}

/// The verdict on a snapshot: `resource_count` resources were fetched, the
/// cleaned critical paths `expected` and the WASM paths `wasm` were checked,
/// and `present` / `wasm_present` report, index by index, which exist.
pub open spec fn snapshot_verdict(
    resource_count: usize,
    expected: Seq<Seq<char>>,
    present: Seq<bool>,
    wasm: Seq<Seq<char>>,
    wasm_present: Seq<bool>,
) -> Option<Seq<char>> {
    if resource_count == 0 && expected.len() > 0 {
        Some("incomplete snapshot: no resources fetched"@)
    } else {
        match first_missing(expected.len() as int, present, 0) {
            Some(i) => Some("incomplete snapshot: missing "@ + expected[i]),
            None => match first_missing(wasm.len() as int, wasm_present, 0) {
                Some(i) => Some("incomplete snapshot: missing WASM "@ + wasm[i]),
                None => None,
            },
        }
    }
}

/// The index of the first of `n` files not reported present by `present`.
fn find_missing(n: usize, present: &Vec<bool>) -> (r: Option<usize>)
    ensures
        match first_missing(n as int, present@, 0) {
            Some(i) => r == Some(i as usize),
            None => r is None,
        },
{
    let mut k: usize = 0;
    while k < n
        invariant
            k <= n,
            first_missing(n as int, present@, 0) == first_missing(n as int, present@, k as int),
        decreases n - k,
    {
        if !(k < present.len() && present[k]) {
            return Some(k);
        }
        k = k + 1;
    }
    None
}

/// Decides whether a snapshot becomes active: it is switched to exactly when
/// the resource count check passes and every cleaned critical path and every
/// WASM path was reported present; otherwise it is abandoned with the count
/// error, or with the error for the first critical path, then the first WASM
/// path, reported missing.
pub fn snapshot_next(
    resource_count: usize,
    expected: &Vec<String>,
    present: &Vec<bool>,
    wasm: &Vec<String>,
    wasm_present: &Vec<bool>,
) -> (a: SnapshotAction)
    ensures
        match snapshot_verdict(resource_count, views(expected@), present@, views(wasm@), wasm_present@) {
            None => a is Switch,
            Some(m) => a matches SnapshotAction::Abandon(e) && is_fetch_error(e, m),
        },
        a is Switch <==> !(resource_count == 0 && expected@.len() > 0)
            && (forall|i: int| 0 <= i < expected@.len() ==> #[trigger] reported_present(present@, i))
            && (forall|i: int| 0 <= i < wasm@.len() ==> #[trigger] reported_present(wasm_present@, i)),
{
    proof {
        lemma_first_missing(expected@.len() as int, present@, 0);
        lemma_first_missing(wasm@.len() as int, wasm_present@, 0);
    }
    match check_resource_count(resource_count, expected.len()) {
        Err(e) => {
            return SnapshotAction::Abandon(e);
        },
        Ok(()) => {},
    }
    if let Some(i) = find_missing(expected.len(), present) {
        return SnapshotAction::Abandon(missing_resource_error(expected[i].as_str()));
    }
    if let Some(i) = find_missing(wasm.len(), wasm_present) {
        return SnapshotAction::Abandon(missing_wasm_error(wasm[i].as_str()));
    }
    SnapshotAction::Switch
}

/// The page's resource list holds exactly the `<script src>`, `<link href>`
/// and `<img src>` values and the relative module imports written in the
/// page, each once.
pub proof fn lemma_page_references_complete(h: Seq<u8>)
    ensures
        page_references(h).no_duplicates(),
        forall|v: Seq<char>|
            #[trigger] page_references(h).contains(v) <==> (attr_values_of(h, "script".spec_bytes(), "src".spec_bytes()).contains(v)
                || attr_values_of(h, "link".spec_bytes(), "href".spec_bytes()).contains(v)
                || attr_values_of(h, "img".spec_bytes(), "src".spec_bytes()).contains(v)
                || relative_imports(h, 0).contains(v)),
{
    let a = attr_values_of(h, "script".spec_bytes(), "src".spec_bytes());
    let b = attr_values_of(h, "link".spec_bytes(), "href".spec_bytes());
    let c = attr_values_of(h, "img".spec_bytes(), "src".spec_bytes());
    let d = relative_imports(h, 0);
    let e = Seq::<Seq<char>>::empty();
    lemma_push_all_unique_set(e, a);
    let s1 = push_all_unique(e, a);
    lemma_push_all_unique_set(s1, b);
    let s2 = push_all_unique(s1, b);
    lemma_push_all_unique_set(s2, c);
    let s3 = push_all_unique(s2, c);
    lemma_push_all_unique_set(s3, d);
}

/// A reference starting with `http://`, `https://`, `//` or `data:`.
proof fn lemma_external_prefixes(p: Seq<u8>)
    ensures
        is_external_reference(p) <==> (starts_with(p, "http://".spec_bytes()) || starts_with(p, "https://".spec_bytes())
            || starts_with(p, "//".spec_bytes()) || starts_with(p, "data:".spec_bytes())),
{
}

/// The references a snapshot requires are exactly the page's references that
/// start with none of `http://`, `https://`, `//` and `data:`, in order.
pub proof fn lemma_local_references_exact(refs: Seq<Seq<char>>)
    ensures
        forall|v: Seq<char>|
            #[trigger] local_references(refs).contains(v) <==> refs.contains(v) && !(starts_with(encode_utf8(v), "http://".spec_bytes())
                || starts_with(encode_utf8(v), "https://".spec_bytes()) || starts_with(encode_utf8(v), "//".spec_bytes())
                || starts_with(encode_utf8(v), "data:".spec_bytes())),
    decreases refs.len(),
{
    if refs.len() > 0 {
        lemma_local_references_exact(refs.drop_last());
        lemma_external_prefixes(encode_utf8(refs.last()));
        let rest = local_references(refs.drop_last());
        assert forall|v: Seq<char>| #[trigger] refs.contains(v) <==> refs.drop_last().contains(v) || v == refs.last() by {
            if refs.contains(v) {
                let i = choose|i: int| 0 <= i < refs.len() && refs[i] == v;
                if i < refs.len() - 1 {
                    assert(refs.drop_last()[i] == v);
                }
            }
            if v == refs.last() {
                assert(refs[refs.len() - 1] == v);
            }
            if refs.drop_last().contains(v) {
                let i = choose|i: int| 0 <= i < refs.len() - 1 && refs.drop_last()[i] == v;
                assert(refs[i] == v);
            }
        }
        assert forall|v: Seq<char>| #[trigger] rest.push(refs.last()).contains(v) <==> rest.contains(v) || v == refs.last() by {
            if rest.push(refs.last()).contains(v) {
                let i = choose|i: int| 0 <= i < rest.len() + 1 && rest.push(refs.last())[i] == v;
                if i < rest.len() {
                    assert(rest[i] == v);
                }
            }
            if v == refs.last() {
                assert(rest.push(refs.last())[rest.len() as int] == v);
            }
            if rest.contains(v) {
                let i = choose|i: int| 0 <= i < rest.len() && rest[i] == v;
                assert(rest.push(refs.last())[i] == v);
            }
        }
        lemma_external_prefixes_forall();
    }
}

proof fn lemma_external_prefixes_forall()
    ensures
        forall|p: Seq<u8>| #[trigger] is_external_reference(p) <==> (starts_with(p, "http://".spec_bytes()) || starts_with(
            p,
            "https://".spec_bytes(),
        ) || starts_with(p, "//".spec_bytes()) || starts_with(p, "data:".spec_bytes())),
{
}

/// The fetch requests are exactly, for each reference starting with none of
/// `http://`, `https://`, `//` and `data:`, its cleaned path and `base`
/// joined with that path.
pub proof fn lemma_resource_requests_exact(paths: Seq<Seq<char>>, base: Seq<char>)
    ensures
        forall|x: (Seq<char>, Seq<char>)|
            #[trigger] resource_requests_of(paths, base).contains(x) <==> exists|i: int|
                0 <= i < paths.len() && !(starts_with(encode_utf8(paths[i]), "http://".spec_bytes())
                    || starts_with(encode_utf8(paths[i]), "https://".spec_bytes())
                    || starts_with(encode_utf8(paths[i]), "//".spec_bytes())
                    || starts_with(encode_utf8(paths[i]), "data:".spec_bytes())) && x == (
                    clean_view(paths[i]),
                    base + "/"@ + clean_view(paths[i]),
                ),
    decreases paths.len(),
{
    lemma_external_prefixes_forall();
    if paths.len() > 0 {
        let init = paths.drop_last();
        lemma_resource_requests_exact(init, base);
        let rest = resource_requests_of(init, base);
        let last = paths.last();
        let item = (clean_view(last), base + "/"@ + clean_view(last));
        assert forall|x: (Seq<char>, Seq<char>)| #[trigger] resource_requests_of(paths, base).contains(x) <==> exists|i: int|
            0 <= i < paths.len() && !(starts_with(encode_utf8(paths[i]), "http://".spec_bytes())
                || starts_with(encode_utf8(paths[i]), "https://".spec_bytes())
                || starts_with(encode_utf8(paths[i]), "//".spec_bytes())
                || starts_with(encode_utf8(paths[i]), "data:".spec_bytes())) && x == (
                clean_view(paths[i]),
                base + "/"@ + clean_view(paths[i]),
            ) by {
            let r = resource_requests_of(paths, base);
            if r.contains(x) {
                let k = choose|k: int| 0 <= k < r.len() && r[k] == x;
                if k < rest.len() {
                    assert(r[k] == rest[k]);
                    assert(rest.contains(x));
                    let i = choose|i: int|
                        0 <= i < init.len() && !(starts_with(encode_utf8(init[i]), "http://".spec_bytes())
                            || starts_with(encode_utf8(init[i]), "https://".spec_bytes())
                            || starts_with(encode_utf8(init[i]), "//".spec_bytes())
                            || starts_with(encode_utf8(init[i]), "data:".spec_bytes())) && x == (
                            clean_view(init[i]),
                            base + "/"@ + clean_view(init[i]),
                        );
                    assert(paths[i] == init[i]);
                } else {
                    assert(paths[paths.len() - 1] == last);
                }
            }
            if exists|i: int|
                0 <= i < paths.len() && !(starts_with(encode_utf8(paths[i]), "http://".spec_bytes())
                    || starts_with(encode_utf8(paths[i]), "https://".spec_bytes())
                    || starts_with(encode_utf8(paths[i]), "//".spec_bytes())
                    || starts_with(encode_utf8(paths[i]), "data:".spec_bytes())) && x == (
                    clean_view(paths[i]),
                    base + "/"@ + clean_view(paths[i]),
                ) {
                let i = choose|i: int|
                    0 <= i < paths.len() && !(starts_with(encode_utf8(paths[i]), "http://".spec_bytes())
                        || starts_with(encode_utf8(paths[i]), "https://".spec_bytes())
                        || starts_with(encode_utf8(paths[i]), "//".spec_bytes())
                        || starts_with(encode_utf8(paths[i]), "data:".spec_bytes())) && x == (
                        clean_view(paths[i]),
                        base + "/"@ + clean_view(paths[i]),
                    );
                if i < paths.len() - 1 {
                    assert(init[i] == paths[i]);
                    assert(rest.contains(x));
                    let k = choose|k: int| 0 <= k < rest.len() && rest[k] == x;
                    if !is_external_reference(encode_utf8(last)) {
                        assert(rest.push(item)[k] == x);
                    }
                } else {
                    assert(r == rest.push(item));
                    assert(r[rest.len() as int] == x);
                }
            }
        }
    }
}

proof fn lemma_dependency_requests_of_contains(
    dir: Seq<char>,
    base: Seq<char>,
    refs: Seq<Seq<char>>,
    wasm: bool,
    v: Seq<char>,
)
    requires
        refs.contains(v),
        !is_external_reference(encode_utf8(v)),
    ensures
        dependency_requests_of(dir, base, refs, wasm).contains(dependency_request(dir, base, v, wasm)),
    decreases refs.len(),
{
    let init = refs.drop_last();
    let rest = dependency_requests_of(dir, base, init, wasm);
    if refs.last() == v {
        let r = rest.push(dependency_request(dir, base, v, wasm));
        assert(r[rest.len() as int] == dependency_request(dir, base, v, wasm));
    } else {
        let i = choose|i: int| 0 <= i < refs.len() && refs[i] == v;
        assert(init[i] == v);
        lemma_dependency_requests_of_contains(dir, base, init, wasm, v);
        let k = choose|k: int| 0 <= k < rest.len() && rest[k] == dependency_request(dir, base, v, wasm);
        if !is_external_reference(encode_utf8(refs.last())) {
            assert(rest.push(dependency_request(dir, base, refs.last(), wasm))[k] == rest[k]);
        }
    }
}

/// A fetched `.js` or `.mjs` resource gets a request for each of its relative
/// imports and `.wasm` literals that starts with none of `http://`,
/// `https://`, `//` and `data:`: saved at the cleaned reference (a `.wasm`
/// literal first resolved against the script's directory) and fetched from
/// the base of the script's final URL joined with the cleaned reference. Any
/// other resource gets no request.
pub proof fn lemma_script_dependencies_requested(path: Seq<char>, final_url: Seq<char>, body: Seq<u8>, v: Seq<char>)
    ensures
        ({
            let p = encode_utf8(path);
            let js = encode_utf8(lossy_utf8_of(body));
            let base = decode_utf8(base_url_bytes(encode_utf8(final_url)));
            let dir = decode_utf8(dir_of(p));
            let reqs = resource_dependency_requests(path, final_url, body);
            let script = ends_with(p, ".js".spec_bytes()) || ends_with(p, ".mjs".spec_bytes());
            let local = !(starts_with(encode_utf8(v), "http://".spec_bytes())
                || starts_with(encode_utf8(v), "https://".spec_bytes())
                || starts_with(encode_utf8(v), "//".spec_bytes())
                || starts_with(encode_utf8(v), "data:".spec_bytes()));
            &&& script && local && relative_imports(js, 0).contains(v) ==> reqs.contains(
                (clean_view(v), base + "/"@ + clean_view(v)),
            )
            &&& script && local && wasm_references_of(js, Seq::empty()).contains(v) ==> reqs.contains(
                (clean_view(resolve_in(dir, v)), base + "/"@ + clean_view(v)),
            )
            &&& !script ==> reqs.len() == 0
        }),
{
    let p = encode_utf8(path);
    let js = encode_utf8(lossy_utf8_of(body));
    let base = decode_utf8(base_url_bytes(encode_utf8(final_url)));
    let dir = decode_utf8(dir_of(p));
    lemma_external_prefixes(encode_utf8(v));
    let e = Seq::<Seq<char>>::empty();
    let w = push_all_unique(e, wasm_references_of(js, Seq::<u8>::empty()));
    let m = push_all_unique(e, relative_imports(js, 0));
    lemma_push_all_unique_set(e, wasm_references_of(js, Seq::<u8>::empty()));
    lemma_push_all_unique_set(e, relative_imports(js, 0));
    if is_script_path(p) && !is_external_reference(encode_utf8(v)) {
        let a = dependency_requests_of(dir, base, w, true);
        let b = dependency_requests_of(dir, base, m, false);
        if relative_imports(js, 0).contains(v) {
            lemma_dependency_requests_of_contains(dir, base, m, false, v);
            let k = choose|k: int| 0 <= k < b.len() && b[k] == dependency_request(dir, base, v, false);
            assert((a + b)[a.len() + k] == b[k]);
        }
        if wasm_references_of(js, Seq::<u8>::empty()).contains(v) {
            lemma_dependency_requests_of_contains(dir, base, w, true, v);
            let k = choose|k: int| 0 <= k < a.len() && a[k] == dependency_request(dir, base, v, true);
            assert((a + b)[k] == a[k]);
        }
    }
}

proof fn lemma_scripts_of_exact(vs: Seq<Seq<char>>)
    ensures
        forall|v: Seq<char>|
            #[trigger] scripts_of(vs).contains(v) <==> vs.contains(v) && (ends_with(encode_utf8(v), ".js".spec_bytes())
                || ends_with(encode_utf8(v), ".mjs".spec_bytes())),
    decreases vs.len(),
{
    if vs.len() > 0 {
        let init = vs.drop_last();
        lemma_scripts_of_exact(init);
        let rest = scripts_of(init);
        let last = vs.last();
        assert forall|v: Seq<char>|
            #[trigger] scripts_of(vs).contains(v) <==> vs.contains(v) && (ends_with(encode_utf8(v), ".js".spec_bytes())
                || ends_with(encode_utf8(v), ".mjs".spec_bytes())) by {
            let r = scripts_of(vs);
            if r.contains(v) {
                let k = choose|k: int| 0 <= k < r.len() && r[k] == v;
                if k < rest.len() {
                    assert(rest[k] == v);
                    assert(rest.contains(v));
                    assert(init.contains(v));
                    let i = choose|i: int| 0 <= i < init.len() && init[i] == v;
                    assert(vs[i] == v);
                } else {
                    assert(vs[vs.len() - 1] == v);
                }
            }
            if vs.contains(v) && (ends_with(encode_utf8(v), ".js".spec_bytes()) || ends_with(
                encode_utf8(v),
                ".mjs".spec_bytes(),
            )) {
                let i = choose|i: int| 0 <= i < vs.len() && vs[i] == v;
                if i < vs.len() - 1 {
                    assert(init[i] == v);
                    assert(init.contains(v));
                    assert(rest.contains(v));
                    let k = choose|k: int| 0 <= k < rest.len() && rest[k] == v;
                    if is_script_path(encode_utf8(last)) {
                        assert(rest.push(last)[k] == v);
                    }
                } else {
                    assert(r[rest.len() as int] == v);
                }
            }
        }
    }
}

/// The files scanned for WASM references are exactly the `.js` and `.mjs`
/// paths among the verified paths, and `pkg/` followed by each `.js` or
/// `.mjs` name in the `pkg` directory, each once.
pub proof fn lemma_scripts_to_scan_exact(verified: Seq<Seq<char>>, pkg_names: Seq<Seq<char>>)
    ensures
        scripts_to_scan(verified, pkg_names).no_duplicates(),
        forall|v: Seq<char>|
            #[trigger] scripts_to_scan(verified, pkg_names).contains(v) <==> (verified.contains(v) && (ends_with(
                encode_utf8(v),
                ".js".spec_bytes(),
            ) || ends_with(encode_utf8(v), ".mjs".spec_bytes()))) || exists|n: Seq<char>|
                #[trigger] pkg_names.contains(n) && (ends_with(encode_utf8(n), ".js".spec_bytes()) || ends_with(
                    encode_utf8(n),
                    ".mjs".spec_bytes(),
                )) && v == "pkg/"@ + n,
{
    let e = Seq::<Seq<char>>::empty();
    let a = scripts_of(verified);
    let sn = scripts_of(pkg_names);
    let b = pkg_scripts(pkg_names);
    lemma_scripts_of_exact(verified);
    lemma_scripts_of_exact(pkg_names);
    lemma_push_all_unique_set(e, a);
    lemma_push_all_unique_set(push_all_unique(e, a), b);
    assert forall|v: Seq<char>| #[trigger] b.contains(v) <==> exists|n: Seq<char>|
        #[trigger] pkg_names.contains(n) && (ends_with(encode_utf8(n), ".js".spec_bytes()) || ends_with(
            encode_utf8(n),
            ".mjs".spec_bytes(),
        )) && v == "pkg/"@ + n by {
        if b.contains(v) {
            let k = choose|k: int| 0 <= k < b.len() && b[k] == v;
            assert(sn.contains(sn[k]));
        }
        if exists|n: Seq<char>|
            #[trigger] pkg_names.contains(n) && (ends_with(encode_utf8(n), ".js".spec_bytes()) || ends_with(
                encode_utf8(n),
                ".mjs".spec_bytes(),
            )) && v == "pkg/"@ + n {
            let n = choose|n: Seq<char>|
                #[trigger] pkg_names.contains(n) && (ends_with(encode_utf8(n), ".js".spec_bytes()) || ends_with(
                    encode_utf8(n),
                    ".mjs".spec_bytes(),
                )) && v == "pkg/"@ + n;
            assert(sn.contains(n));
            let k = choose|k: int| 0 <= k < sn.len() && sn[k] == n;
            assert(b[k] == v);
        }
    }
}

} // verus!
