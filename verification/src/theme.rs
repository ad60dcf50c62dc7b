//! A theme: a wallpaper and the operations the palette pipeline exposes on
//! it.
//!
//! The wallpaper is held as its path string.  File reading and cache file
//! access stay with the caller: the methods here take the wallpaper's bytes
//! and the cached record bytes as arguments and return what to persist, so
//! every decision is a function of plain values.

use vstd::prelude::*;
use vstd::string::StrSliceExecFns;
use vstd::string::StringExecFns;
use crate::cluster::K;
use crate::hexfmt::{hex_color, color_hex_string};
use crate::identity::{identity_of, identity_spec};
use crate::palette::{
    palette_of, palette_result_spec, cached_seq, fresh_needed, PaletteError, PaletteOutcome,
};
use crate::record::record_encode_spec;
use crate::text::{chars_vec, sub_vec, eq_ci_str, matches_ci, in_list, in_list_exec};

verus! {

/// The path with trailing `/` separators removed.
pub open spec fn strip_trailing_slashes(s: Seq<char>) -> Seq<char>
    decreases s.len(),
{
    if s.len() > 0 && s.last() == '/' {
        strip_trailing_slashes(s.drop_last())
    } else {
        s
    }
}

/// Index of the last occurrence of `ch` in `s`, or `-1`.
pub open spec fn last_index_of(s: Seq<char>, ch: char) -> int
    decreases s.len(),
{
    if s.len() == 0 {
        -1
    } else if s.last() == ch {
        s.len() - 1
    } else {
        last_index_of(s.drop_last(), ch)
    }
}

/// The final path component: what follows the last `/`, trailing separators
/// ignored.
pub open spec fn file_name_of(path: Seq<char>) -> Seq<char> {
    let t = strip_trailing_slashes(path);
    t.skip(last_index_of(t, '/') + 1)
}

/// The extension of the final path component: what follows its last `.`,
/// provided that dot is preceded by something; a component without a dot,
/// one whose only dot leads it, and the `..` component have none.
pub open spec fn extension_of(path: Seq<char>) -> Option<Seq<char>> {
    let f = file_name_of(path);
    if f =~= seq!['.', '.'] {
        None
    } else {
        let d = last_index_of(f, '.');
        if d <= 0 {
            None
        } else {
            Some(f.skip(d + 1))
        }
    }
}

/// Animated-format extensions, compared ASCII-case-insensitively.
pub open spec fn is_animated_spec(path: Seq<char>) -> bool {
    match extension_of(path) {
        Some(e) => matches_ci(e, "gif"@) || matches_ci(e, "webp"@) || matches_ci(e, "apng"@),
        None => false,
    }
}

/// Supported image extensions, compared ASCII-case-insensitively.
pub open spec fn has_image_ext_spec(path: Seq<char>) -> bool {
    match extension_of(path) {
        Some(e) => matches_ci(e, "png"@) || matches_ci(e, "jpg"@) || matches_ci(e, "jpeg"@)
            || matches_ci(e, "gif"@) || matches_ci(e, "webp"@),
        None => false,
    }
}

/// The extension of a path, as characters.
fn extension_vec(v: &Vec<char>) -> (r: Option<Vec<char>>)
    ensures
        match r {
            Some(e) => extension_of(v@) == Some(e@),
            None => extension_of(v@) is None,
        },
{
    let mut end: usize = v.len();
    proof {
        assert(v@.take(v@.len() as int) =~= v@);
    }
    while end > 0 && v[end - 1] == '/'
        invariant
            end <= v@.len(),
            strip_trailing_slashes(v@) == strip_trailing_slashes(v@.take(end as int)),
        decreases end,
    {
        proof {
            let t = v@.take(end as int);
            assert(t.last() == v@[end - 1]);
            assert(t.drop_last() =~= v@.take(end - 1));
        }
        end = end - 1;
    }
    let ghost t = v@.take(end as int);
    proof {
        if end > 0 {
            assert(t.last() == v@[end - 1]);
        }
        assert(strip_trailing_slashes(t) == t);
        assert(strip_trailing_slashes(v@) == t);
    }
    let mut cur: usize = end;
    proof {
        assert(t.take(t.len() as int) =~= t);
    }
    while cur > 0 && v[cur - 1] != '/'
        invariant
            cur <= end <= v@.len(),
            t == v@.take(end as int),
            last_index_of(t, '/') == last_index_of(t.take(cur as int), '/'),
        decreases cur,
    {
        proof {
            let p = t.take(cur as int);
            assert(p.last() == v@[cur - 1]);
            assert(p.drop_last() =~= t.take(cur - 1));
        }
        cur = cur - 1;
    }
    proof {
        if cur == 0 {
            assert(t.take(0int) =~= Seq::<char>::empty());
            assert(last_index_of(t, '/') == -1);
        } else {
            let p = t.take(cur as int);
            assert(p.last() == v@[cur - 1] && p.last() == '/');
            assert(last_index_of(t, '/') == cur - 1);
        }
        assert(file_name_of(v@) =~= v@.subrange(cur as int, end as int));
    }
    let ghost f = file_name_of(v@);
    if end - cur == 2 && v[cur] == '.' && v[cur + 1] == '.' {
        proof {
            assert(f =~= seq!['.', '.']);
        }
        return None;
    }
    proof {
        assert(f.len() == 2 && f[0] == '.' && f[1] == '.' ==> f =~= seq!['.', '.']);
        assert(!(f =~= seq!['.', '.']));
    }
    let mut dcur: usize = end;
    proof {
        assert(f.take(f.len() as int) =~= f);
    }
    while dcur > cur && v[dcur - 1] != '.'
        invariant
            cur <= dcur <= end <= v@.len(),
            f == v@.subrange(cur as int, end as int),
            last_index_of(f, '.') == last_index_of(f.take((dcur - cur) as int), '.'),
        decreases dcur,
    {
        proof {
            let p = f.take((dcur - cur) as int);
            assert(p.last() == f[dcur - cur - 1] && f[dcur - cur - 1] == v@[dcur - 1]);
            assert(p.drop_last() =~= f.take((dcur - 1 - cur) as int));
        }
        dcur = dcur - 1;
    }
    proof {
        if dcur == cur {
            assert(f.take(0int) =~= Seq::<char>::empty());
            assert(last_index_of(f, '.') == -1);
        } else {
            let p = f.take((dcur - cur) as int);
            assert(p.last() == f[dcur - cur - 1] && f[dcur - cur - 1] == v@[dcur - 1]);
            assert(last_index_of(f, '.') == dcur - cur - 1);
        }
    }
    if dcur <= cur + 1 {
        return None;
    }
    let e = sub_vec(v, dcur, end);
    proof {
        assert(f.skip((dcur - cur - 1) + 1) =~= v@.subrange(dcur as int, end as int));
    }
    Some(e)
}

/// Whether the path names a supported image format, by its extension.
pub fn is_image_path(path: &str) -> (r: bool)
    ensures
        r == has_image_ext_spec(path@),
{
    let v = chars_vec(path);
    match extension_vec(&v) {
        None => false,
        Some(e) => eq_ci_str(&e, "png") || eq_ci_str(&e, "jpg") || eq_ci_str(&e, "jpeg")
            || eq_ci_str(&e, "gif") || eq_ci_str(&e, "webp"),
    }
}

/// The theme in use: its wallpaper path.
pub struct Theme {
    pub wallpaper: String,
}

impl Theme {
    /// Create the theme for a wallpaper path.
    pub fn new(wallpaper: String) -> (t: Theme)
        ensures
            t.wallpaper == wallpaper,
    {
        Theme { wallpaper }
    }

    /// Whether the wallpaper is an animated format, from its file
    /// extension.
    pub fn is_animated(&self) -> (r: bool)
        ensures
            r == is_animated_spec(self.wallpaper@),
    {
        let v = chars_vec(self.wallpaper.as_str());
        match extension_vec(&v) {
            None => false,
            Some(e) => eq_ci_str(&e, "gif") || eq_ci_str(&e, "webp") || eq_ci_str(&e, "apng"),
        }
    }

    /// The wallpaper's content-addressed identity: the hex SHA-256 digest
    /// of its path, a `:` separator, and its bytes.
    pub fn hash(&self, bytes: &Vec<u8>) -> (r: String)
        ensures
            r@ == identity_spec(self.wallpaper@, bytes@),
            r@.len() == 64,
    {
        identity_of(self.wallpaper.as_str(), bytes)
    }

    /// The wallpaper's ranked palette, against an optionally cached record:
    /// a record that decodes is returned as is; otherwise the palette is
    /// computed from the bytes and its record handed back for the caller to
    /// persist under [`Theme::hash`].
    pub fn palette(&self, bytes: &Vec<u8>, cached: Option<&Vec<u8>>) -> (r: Result<
        PaletteOutcome,
        PaletteError,
    >)
        ensures
            r is Ok <==> palette_result_spec(bytes@, cached_seq(cached)) is Some,
            r matches Ok(o) ==> Some(o.colors@) == palette_result_spec(bytes@, cached_seq(cached))
                && o.colors@.len() == K,
            r matches Ok(o) ==> match o.record {
                Some(rec) => fresh_needed(cached_seq(cached)) && rec@ == record_encode_spec(
                    o.colors@,
                ),
                None => !fresh_needed(cached_seq(cached)),
            },
    {
        palette_of(bytes, cached)
    }

    /// The dominant color, formatted `0xRRGGBB`: the first entry of the
    /// ranked palette.
    pub fn dominant_color(&self, bytes: &Vec<u8>, cached: Option<&Vec<u8>>) -> (r: Result<
        String,
        PaletteError,
    >)
        ensures
            r is Ok <==> palette_result_spec(bytes@, cached_seq(cached)) is Some,
            r matches Ok(s) ==> s@ == hex_color(
                palette_result_spec(bytes@, cached_seq(cached)).unwrap()[0],
            ),
    {
        match self.palette(bytes, cached) {
            Err(e) => Err(e),
            Ok(o) => {
                let c = o.colors[0];
                Ok(color_hex_string(c))
            },
        }
    }
}

/// The extensions tried by [`find_wallpaper`], in order.
pub open spec fn ext_name(i: int) -> Seq<char> {
    if i == 0 {
        "png"@
    } else if i == 1 {
        "jpg"@
    } else if i == 2 {
        "jpeg"@
    } else if i == 3 {
        "gif"@
    } else {
        "webp"@
    }
}

/// `dir` and `file` joined with a `/` separator, not doubled after a `dir`
/// that already ends in one.
pub open spec fn join_path(dir: Seq<char>, file: Seq<char>) -> Seq<char> {
    if dir.len() > 0 && dir.last() == '/' {
        dir + file
    } else {
        dir + seq!['/'] + file
    }
}

/// The path tried for `name` with the `i`-th extension.
pub open spec fn candidate_path(dir: Seq<char>, name: Seq<char>, i: int) -> Seq<char> {
    join_path(dir, name + seq!['.'] + ext_name(i))
}

/// Whether `name` is itself the path of a known image file.
pub open spec fn direct_match(name: Seq<char>, existing: Seq<String>) -> bool {
    in_list(existing, name) && has_image_ext_spec(name)
}

/// The first candidate path from the `i`-th extension on that is a known
/// file.
pub open spec fn found_from(dir: Seq<char>, name: Seq<char>, existing: Seq<String>, i: int) -> Option<
    Seq<char>,
>
    decreases 5 - i,
{
    if i < 0 || i >= 5 {
        None
    } else if in_list(existing, candidate_path(dir, name, i)) {
        Some(candidate_path(dir, name, i))
    } else {
        found_from(dir, name, existing, i + 1)
    }
}

/// What [`find_wallpaper`] returns: `name` itself when it is a known image
/// file, else the first extension candidate under `dir` that is known.
pub open spec fn find_wallpaper_spec(dir: Seq<char>, name: Seq<char>, existing: Seq<String>) -> Option<
    Seq<char>,
> {
    if direct_match(name, existing) {
        Some(name)
    } else {
        found_from(dir, name, existing, 0)
    }
}

/// One candidate path, built executably.
fn candidate_exec(dir: &str, name: &str, ext: &str) -> (r: String)
    ensures
        r@ == join_path(dir@, name@ + seq!['.'] + ext@),
{
    proof {
        reveal_strlit("/");
        reveal_strlit(".");
    }
    let mut out = dir.to_owned();
    let dlen = dir.unicode_len();
    if !(dlen > 0 && dir.get_char(dlen - 1) == '/') {
        out.append("/");
    }
    out.append(name);
    out.append(".");
    out.append(ext);
    proof {
        assert(out@ =~= join_path(dir@, name@ + seq!['.'] + ext@));
    }
    out
}

/// Resolve a wallpaper request to a path, given the set `existing` of paths
/// known to be files: `name` itself when it is a known image file, else the
/// first of `dir/name.{png,jpg,jpeg,gif,webp}` that is known; an error when
/// none is, and only then.
pub fn find_wallpaper(dir: &str, name: &str, existing: &Vec<String>) -> (r: Result<
    String,
    ThemeError,
>)
    ensures
        r is Ok <==> find_wallpaper_spec(dir@, name@, existing@) is Some,
        r matches Ok(p) ==> Some(p@) == find_wallpaper_spec(dir@, name@, existing@),
{
    let name_chars = chars_vec(name);
    let direct_ext = match extension_vec(&name_chars) {
        None => false,
        Some(e) => eq_ci_str(&e, "png") || eq_ci_str(&e, "jpg") || eq_ci_str(&e, "jpeg")
            || eq_ci_str(&e, "gif") || eq_ci_str(&e, "webp"),
    };
    if direct_ext {
        let nm = name.to_owned();
        if in_list_exec(existing, &nm) {
            return Ok(nm);
        }
    }
    assert(!direct_match(name@, existing@));
    let mut idx: usize = 0;
    while idx < 5
        invariant
            idx <= 5,
            !direct_match(name@, existing@),
            found_from(dir@, name@, existing@, 0) == found_from(dir@, name@, existing@, idx as int),
        decreases 5 - idx,
    {
        let ext: &str = if idx == 0 {
            "png"
        } else if idx == 1 {
            "jpg"
        } else if idx == 2 {
            "jpeg"
        } else if idx == 3 {
            "gif"
        } else {
            "webp"
        };
        assert(ext@ == ext_name(idx as int));
        let cand = candidate_exec(dir, name, ext);
        if in_list_exec(existing, &cand) {
            return Ok(cand);
        }
        idx = idx + 1;
    }
    Err(ThemeError::NotFound)
}

/// Why a wallpaper request could not be resolved.
#[derive(Debug)]
pub enum ThemeError {
    /// No known file matched the request.
    NotFound,
}

} // verus!
