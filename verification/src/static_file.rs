use vstd::prelude::*;
use crate::text::{contains, starts_with, str_contains, str_starts_with};

verus! {

/// `s` without the slashes it begins with.
pub open spec fn strip_leading_slashes(s: Seq<char>) -> Seq<char>
    decreases s.len(),
{
    if s.len() > 0 && s[0] == '/' {
        strip_leading_slashes(s.drop_first())
    } else {
        s
    }
}

/// The file path a request for `path` may be served from: a leading `./` is
/// dropped; a path that still holds `./` (and so also one holding `../`)
/// is refused; leading slashes are removed so that the path stays relative.
pub open spec fn request_path_spec(path: Seq<char>) -> Option<Seq<char>> {
    let p = if starts_with(path, "./"@) {
        path.subrange(2, path.len() as int)
    } else {
        path
    };
    if contains(p, "../"@) || contains(p, "./"@) {
        None
    } else {
        Some(strip_leading_slashes(p))
    }
}

/// The relative file path under which the request path `path` is looked up
/// in the static directories, or `None` when the path tries to leave them.
pub fn request_path(path: &str) -> (r: Option<&str>)
    ensures
        r is None <==> request_path_spec(path@) is None,
        r matches Some(p) ==> request_path_spec(path@) == Some(p@),
{
    proof {
        reveal_strlit("./");
    }
    let mut path = path;
    if str_starts_with(path, "./") {
        let n = path.unicode_len();
        path = path.substring_char(2, n);
    }
    if str_contains(path, "../") || str_contains(path, "./") {
        return None;
    }
    let n = path.unicode_len();
    let mut i: usize = 0;
    assert(path@.subrange(0, n as int) =~= path@);
    while i < n && path.get_char(i) == '/'
        invariant
            n == path@.len(),
            i <= n,
            strip_leading_slashes(path@) == strip_leading_slashes(path@.subrange(i as int, n as int)),
        decreases n - i,
    {
        assert(path@.subrange(i + 1, n as int) =~= path@.subrange(i as int, n as int).drop_first());
        i = i + 1;
    }
    assert(strip_leading_slashes(path@.subrange(i as int, n as int)) == path@.subrange(
        i as int,
        n as int,
    ));
    Some(path.substring_char(i, n))
}

/// A pattern found in a suffix of `s` is found in `s`.
proof fn lemma_contains_suffix(s: Seq<char>, k: int, pattern: Seq<char>)
    requires
        0 <= k <= s.len(),
        contains(s.subrange(k, s.len() as int), pattern),
    ensures
        contains(s, pattern),
{
    let t = s.subrange(k, s.len() as int);
    let i = choose|i: int| 0 <= i <= t.len() && #[trigger] starts_with(t.subrange(i, t.len() as int), pattern);
    assert(t.subrange(i, t.len() as int) =~= s.subrange(k + i, s.len() as int));
    assert(starts_with(s.subrange(k + i, s.len() as int), pattern));
}

/// Removing leading slashes leaves a suffix.
proof fn lemma_strip_is_suffix(s: Seq<char>) -> (k: int)
    ensures
        0 <= k <= s.len(),
        strip_leading_slashes(s) == s.subrange(k, s.len() as int),
    decreases s.len(),
{
    if s.len() > 0 && s[0] == '/' {
        let k1 = lemma_strip_is_suffix(s.drop_first());
        assert(s.drop_first().subrange(k1, s.len() - 1) =~= s.subrange(k1 + 1, s.len() as int));
        k1 + 1
    } else {
        assert(s.subrange(0, s.len() as int) =~= s);
        0
    }
}

/// A path handed out for serving is relative and never climbs out of the
/// served directory: it holds neither `../` nor `./` and does not start
/// with a slash.
pub proof fn lemma_request_path_stays_inside(path: Seq<char>)
    requires
        request_path_spec(path) is Some,
    ensures
        !contains(request_path_spec(path).unwrap(), "../"@),
        !contains(request_path_spec(path).unwrap(), "./"@),
        request_path_spec(path).unwrap().len() > 0 ==> request_path_spec(path).unwrap()[0] != '/',
{
    let p = if starts_with(path, "./"@) {
        path.subrange(2, path.len() as int)
    } else {
        path
    };
    let k = lemma_strip_is_suffix(p);
    if contains(strip_leading_slashes(p), "../"@) {
        lemma_contains_suffix(p, k, "../"@);
    }
    if contains(strip_leading_slashes(p), "./"@) {
        lemma_contains_suffix(p, k, "./"@);
    }
    lemma_strip_leaves_no_slash(p);
}

/// After removing leading slashes the text does not start with one.
proof fn lemma_strip_leaves_no_slash(s: Seq<char>)
    ensures
        strip_leading_slashes(s).len() > 0 ==> strip_leading_slashes(s)[0] != '/',
    decreases s.len(),
{
    if s.len() > 0 && s[0] == '/' {
        lemma_strip_leaves_no_slash(s.drop_first());
    }
}

/// The media type that the extension of `path` calls for.
pub uninterp spec fn mime_type_of(path: Seq<char>) -> Seq<char>;

/// `mime_guess::guess_mime_type`: the media type registered for the
/// extension of `path`, `application/octet-stream` when there is none,
/// written as text. The guess depends on the path's text alone.
#[verifier::external_body]
#[allow(deprecated)]
fn guess_mime_type(path: &str) -> (r: String)
    ensures
        r@ == mime_type_of(path@),
{
    mime_guess::guess_mime_type(path).to_string()
}

/// The media type a static file at `local_path` is served with.
pub fn content_type(local_path: &str) -> (r: String)
    ensures
        r@ == mime_type_of(local_path@),
{
    guess_mime_type(local_path)
}

} // verus!
