//! Template-variable substitution and the palette's textual variable set.
//!
//! A template references variables as `{{name}}`.  Substitution replaces a
//! known variable with its value, keeps an unknown `{{name}}` literally for
//! the user to see, and passes an unclosed `{{` through unchanged.
//! [`build_variables`] lays out every palette entry in the formats
//! downstream tools expect: `#rrggbb` hex, bare hex, decimal `r,g,b`, and
//! each channel scaled to `[0,1]` with four decimal places, rounded to
//! nearest (an exact rational rounding: no channel value falls on a tie).

use vstd::prelude::*;
use vstd::string::StrSliceExecFns;
use vstd::string::StringExecFns;
use crate::hexfmt::{hex_digit, hex_byte, push_hex_digit, push_hex_byte};
use crate::text::chars_vec;

verus! {

/// The value of the first variable named `key`, if any.
pub open spec fn lookup(vars: Seq<(String, String)>, key: Seq<char>) -> Option<Seq<char>>
    decreases vars.len(),
{
    if vars.len() == 0 {
        None
    } else if vars[0].0@ == key {
        Some(vars[0].1@)
    } else {
        lookup(vars.drop_first(), key)
    }
}

/// Index of the first occurrence of the two-character pattern `ab`, or
/// `-1`.
pub open spec fn find2(s: Seq<char>, a: char, b: char) -> int
    decreases s.len(),
{
    if s.len() < 2 {
        -1
    } else if s[0] == a && s[1] == b {
        0
    } else {
        let r = find2(s.drop_first(), a, b);
        if r == -1 {
            -1
        } else {
            r + 1
        }
    }
}

/// The substituted text: each `{{name}}` becomes the variable's value, an
/// unknown name stays literal, an unclosed `{{` passes through.
pub open spec fn subst(s: Seq<char>, vars: Seq<(String, String)>) -> Seq<char>
    decreases s.len(),
{
    let st = find2(s, '{', '{');
    if st < 0 || st + 2 > s.len() {
        s
    } else {
        let before = s.take(st);
        let after_open = s.skip(st + 2);
        let en = find2(after_open, '}', '}');
        if en < 0 || en + 2 > after_open.len() {
            before + seq!['{', '{'] + subst(after_open, vars)
        } else {
            let key = after_open.take(en);
            let rest = after_open.skip(en + 2);
            match lookup(vars, key) {
                Some(val) => before + val + subst(rest, vars),
                None => before + seq!['{', '{'] + key + seq!['}', '}'] + subst(rest, vars),
            }
        }
    }
}

proof fn lemma_find2_range(s: Seq<char>, a: char, b: char)
    ensures
        find2(s, a, b) >= -1,
    decreases s.len(),
{
    if s.len() >= 2 && !(s[0] == a && s[1] == b) {
        lemma_find2_range(s.drop_first(), a, b);
    }
}

/// Find the two-character pattern `ab` at or after `from`.
fn find2_at(v: &Vec<char>, from: usize, a: char, b: char) -> (r: Option<usize>)
    requires
        from <= v@.len(),
    ensures
        match r {
            Some(j) => from <= j && j + 2 <= v@.len() && v@[j as int] == a && v@[j + 1] == b
                && find2(v@.skip(from as int), a, b) == j - from,
            None => find2(v@.skip(from as int), a, b) == -1,
        },
{
    let n = v.len();
    let mut i: usize = from;
    while n - i > 1
        invariant_except_break
            from <= i <= n,
            n == v@.len(),
            find2(v@.skip(from as int), a, b) == (if find2(v@.skip(i as int), a, b) == -1 {
                -1int
            } else {
                find2(v@.skip(i as int), a, b) + (i - from)
            }),
        ensures
            from <= i <= n,
            n == v@.len(),
            find2(v@.skip(from as int), a, b) == (if find2(v@.skip(i as int), a, b) == -1 {
                -1int
            } else {
                find2(v@.skip(i as int), a, b) + (i - from)
            }),
            n - i > 1 ==> v@[i as int] == a && v@[i + 1] == b,
        decreases n - i,
    {
        let ghost sufi = v@.skip(i as int);
        proof {
            assert(sufi.len() == n - i >= 2);
            assert(sufi[0] == v@[i as int] && sufi[1] == v@[i + 1]);
            assert(sufi.drop_first() =~= v@.skip(i + 1));
        }
        if v[i] == a && v[i + 1] == b {
            break ;
        }
        proof {
            lemma_find2_range(v@.skip(i + 1), a, b);
            assert(find2(sufi, a, b) == (if find2(v@.skip(i + 1), a, b) == -1 {
                -1int
            } else {
                find2(v@.skip(i + 1), a, b) + 1
            }));
            assert(find2(v@.skip(from as int), a, b) == (if find2(v@.skip(i + 1), a, b) == -1 {
                -1int
            } else {
                find2(v@.skip(i + 1), a, b) + (i + 1 - from)
            }));
        }
        i = i + 1;
    }
    if n - i > 1 {
        proof {
            let sufi = v@.skip(i as int);
            assert(sufi[0] == v@[i as int] && sufi[1] == v@[i + 1]);
            assert(find2(sufi, a, b) == 0);
        }
        Some(i)
    } else {
        proof {
            assert(v@.skip(i as int).len() < 2);
        }
        None
    }
}

/// Whether `s` is exactly the characters `v[a..b]`.
fn eq_range(s: &String, v: &Vec<char>, a: usize, b: usize) -> (r: bool)
    requires
        a <= b <= v@.len(),
    ensures
        r == (s@ == v@.subrange(a as int, b as int)),
{
    let sc = chars_vec(s.as_str());
    if sc.len() != b - a {
        return false;
    }
    let mut k: usize = 0;
    while k < sc.len()
        invariant
            k <= sc@.len(),
            sc@.len() == b - a,
            a <= b <= v@.len(),
            sc@ == s@,
            forall|t: int| 0 <= t < k ==> sc@[t] == v@[a + t],
        decreases sc@.len() - k,
    {
        if sc[k] != v[a + k] {
            proof {
                assert(s@[k as int] != v@.subrange(a as int, b as int)[k as int]);
            }
            return false;
        }
        k = k + 1;
    }
    proof {
        assert(s@ =~= v@.subrange(a as int, b as int));
    }
    true
}

/// Find the first variable whose name is `v[a..b]`.
fn lookup_exec<'a>(vars: &'a Vec<(String, String)>, v: &Vec<char>, a: usize, b: usize) -> (r:
    Option<&'a String>)
    requires
        a <= b <= v@.len(),
    ensures
        match r {
            Some(val) => lookup(vars@, v@.subrange(a as int, b as int)) == Some(val@),
            None => lookup(vars@, v@.subrange(a as int, b as int)) is None,
        },
{
    let ghost key = v@.subrange(a as int, b as int);
    proof {
        assert(vars@.skip(0int) =~= vars@);
    }
    let mut i: usize = 0;
    while i < vars.len()
        invariant
            i <= vars@.len(),
            a <= b <= v@.len(),
            key == v@.subrange(a as int, b as int),
            lookup(vars@, key) == lookup(vars@.skip(i as int), key),
        decreases vars@.len() - i,
    {
        let ghost suf = vars@.skip(i as int);
        proof {
            assert(suf[0] == vars@[i as int]);
            assert(suf.drop_first() =~= vars@.skip(i + 1));
        }
        if eq_range(&vars[i].0, v, a, b) {
            proof {
                assert(suf[0].0@ == key);
                assert(lookup(suf, key) == Some(suf[0].1@));
            }
            return Some(&vars[i].1);
        }
        proof {
            assert(suf[0].0@ != key);
            assert(lookup(suf, key) == lookup(vars@.skip(i + 1), key));
        }
        i = i + 1;
    }
    proof {
        assert(vars@.skip(vars@.len() as int).len() == 0);
    }
    None
}

/// Substitute every `{{name}}` in `input` from `vars`: a known name becomes
/// its value, an unknown one stays literal, an unclosed `{{` passes
/// through.
#[verifier::rlimit(100)]
#[verifier::spinoff_prover]
pub fn substitute(input: &str, vars: &Vec<(String, String)>) -> (r: String)
    ensures
        r@ == subst(input@, vars@),
{
    proof {
        reveal_strlit("{{");
    }
    let v = chars_vec(input);
    let n = v.len();
    let mut out = String::new();
    let mut pos: usize = 0;
    proof {
        assert(input@.skip(0int) =~= input@);
        assert(out@ + subst(input@, vars@) =~= subst(input@, vars@));
    }
    loop
        invariant_except_break
            pos <= n,
            n == v@.len(),
            v@ == input@,
            subst(input@, vars@) == out@ + subst(input@.skip(pos as int), vars@),
        ensures
            out@ == subst(input@, vars@),
        decreases n - pos,
    {
        let ghost out0 = out@;
        let ghost suf = input@.skip(pos as int);
        match find2_at(&v, pos, '{', '{') {
            None => {
                out.append(input.substring_char(pos, n));
                proof {
                    assert(subst(suf, vars@) == suf);
                    assert(input@.subrange(pos as int, n as int) =~= suf);
                    assert(out@ =~= out0 + subst(suf, vars@));
                }
                break ;
            },
            Some(st_abs) => {
                let ghost st = st_abs - pos;
                let ghost after_open = suf.skip(st + 2);
                proof {
                    assert(find2(suf, '{', '{') == st);
                    assert(suf.take(st) =~= input@.subrange(pos as int, st_abs as int));
                    assert(after_open =~= input@.skip(st_abs + 2));
                }
                out.append(input.substring_char(pos, st_abs));
                match find2_at(&v, st_abs + 2, '}', '}') {
                    None => {
                        out.append("{{");
                        proof {
                            reveal_strlit("{{");
                            assert(find2(after_open, '}', '}') == -1);
                            assert(subst(suf, vars@) == suf.take(st) + seq!['{', '{'] + subst(
                                after_open,
                                vars@,
                            ));
                            assert("{{"@ =~= seq!['{', '{']);
                            assert(out@ + subst(input@.skip(st_abs + 2), vars@) =~= out0 + subst(
                                suf,
                                vars@,
                            ));
                        }
                        pos = st_abs + 2;
                    },
                    Some(en_abs) => {
                        let ghost en = en_abs - (st_abs + 2);
                        let ghost key = after_open.take(en);
                        let ghost rest = after_open.skip(en + 2);
                        proof {
                            assert(find2(after_open, '}', '}') == en);
                            assert(key =~= input@.subrange(st_abs + 2, en_abs as int));
                            assert(rest =~= input@.skip(en_abs + 2));
                        }
                        match lookup_exec(vars, &v, st_abs + 2, en_abs) {
                            Some(val) => {
                                out.append(val.as_str());
                                proof {
                                    assert(lookup(vars@, key) == Some(val@));
                                    assert(subst(suf, vars@) == suf.take(st) + val@ + subst(
                                        rest,
                                        vars@,
                                    ));
                                    assert(out@ + subst(input@.skip(en_abs + 2), vars@) =~= out0
                                        + subst(suf, vars@));
                                }
                            },
                            None => {
                                out.append(input.substring_char(st_abs, en_abs + 2));
                                proof {
                                    assert(lookup(vars@, key) is None);
                                    assert(subst(suf, vars@) == suf.take(st) + seq!['{', '{'] + key
                                        + seq!['}', '}'] + subst(rest, vars@));
                                    reveal_strlit("{{");
                                    assert(input@.subrange(st_abs as int, en_abs + 2) =~= seq![
                                        '{',
                                        '{',
                                    ] + key + seq!['}', '}']);
                                    assert(out@ + subst(input@.skip(en_abs + 2), vars@) =~= out0
                                        + subst(suf, vars@));
                                }
                            },
                        }
                        pos = en_abs + 2;
                    },
                }
            },
        }
    }
    out
}

/// The variable-name prefix for palette entry `i`: `color` and a digit.
pub open spec fn color_prefix(i: int) -> Seq<char> {
    "color"@ + seq![hex_digit(i)]
}

/// Decimal rendering of one channel value, no leading zeros.
pub open spec fn dec_chars(n: u8) -> Seq<char> {
    if n < 10 {
        seq![hex_digit(n as int)]
    } else if n < 100 {
        seq![hex_digit(n as int / 10), hex_digit(n as int % 10)]
    } else {
        seq![hex_digit(n as int / 100), hex_digit((n as int / 10) % 10), hex_digit(n as int % 10)]
    }
}

/// A color as `#rrggbb`.
pub open spec fn hash_hex(c: (u8, u8, u8)) -> Seq<char> {
    seq!['#'] + hex_byte(c.0) + hex_byte(c.1) + hex_byte(c.2)
}

/// A color as bare `rrggbb`.
pub open spec fn bare_hex(c: (u8, u8, u8)) -> Seq<char> {
    hex_byte(c.0) + hex_byte(c.1) + hex_byte(c.2)
}

/// A color as decimal `r,g,b`.
pub open spec fn rgb_dec(c: (u8, u8, u8)) -> Seq<char> {
    dec_chars(c.0) + seq![','] + dec_chars(c.1) + seq![','] + dec_chars(c.2)
}

/// A channel scaled to `[0, 1]` with four decimal places: the nearest
/// multiple of one ten-thousandth to `n / 255` (never a tie, since
/// `20000 n + 255` is no multiple of `510` halfway between two).
pub open spec fn norm4(n: u8) -> Seq<char> {
    let d = (20000 * n + 255) / 510;
    if d >= 10000 {
        seq!['1', '.', '0', '0', '0', '0']
    } else {
        seq!['0', '.', hex_digit(d / 1000), hex_digit((d / 100) % 10), hex_digit((d / 10) % 10), hex_digit(d % 10)]
    }
}

/// Append the decimal rendering of `n`.
fn push_dec(out: &mut String, n: u8)
    ensures
        final(out)@ == old(out)@ + dec_chars(n),
{
    if n < 10 {
        push_hex_digit(out, n);
    } else if n < 100 {
        push_hex_digit(out, n / 10);
        push_hex_digit(out, n % 10);
    } else {
        push_hex_digit(out, n / 100);
        push_hex_digit(out, (n / 10) % 10);
        push_hex_digit(out, n % 10);
    }
    assert(out@ =~= old(out)@ + dec_chars(n));
}

/// Format a channel scaled to `[0, 1]` with four decimal places.
fn norm4_string(n: u8) -> (r: String)
    ensures
        r@ == norm4(n),
{
    let d: u32 = (20000 * (n as u32) + 255) / 510;
    if d >= 10000 {
        proof {
            reveal_strlit("1.0000");
        }
        let r = ("1.0000").to_owned();
        proof {
            assert(r@ =~= norm4(n));
        }
        r
    } else {
        proof {
            reveal_strlit("0.");
        }
        let mut out = ("0.").to_owned();
        push_hex_digit(&mut out, (d / 1000) as u8);
        push_hex_digit(&mut out, ((d / 100) % 10) as u8);
        push_hex_digit(&mut out, ((d / 10) % 10) as u8);
        push_hex_digit(&mut out, (d % 10) as u8);
        proof {
            assert(out@ =~= norm4(n));
        }
        out
    }
}

/// Format a color as `#rrggbb`.
fn hash_hex_string(c: (u8, u8, u8)) -> (r: String)
    ensures
        r@ == hash_hex(c),
{
    proof {
        reveal_strlit("#");
    }
    let mut out = ("#").to_owned();
    push_hex_byte(&mut out, c.0);
    push_hex_byte(&mut out, c.1);
    push_hex_byte(&mut out, c.2);
    proof {
        assert(out@ =~= hash_hex(c));
    }
    out
}

/// Format a color as bare `rrggbb`.
fn bare_hex_string(c: (u8, u8, u8)) -> (r: String)
    ensures
        r@ == bare_hex(c),
{
    let mut out = String::new();
    push_hex_byte(&mut out, c.0);
    push_hex_byte(&mut out, c.1);
    push_hex_byte(&mut out, c.2);
    proof {
        assert(out@ =~= bare_hex(c));
    }
    out
}

/// Format a color as decimal `r,g,b`.
fn rgb_dec_string(c: (u8, u8, u8)) -> (r: String)
    ensures
        r@ == rgb_dec(c),
{
    proof {
        reveal_strlit(",");
    }
    let mut out = String::new();
    push_dec(&mut out, c.0);
    out.append(",");
    push_dec(&mut out, c.1);
    out.append(",");
    push_dec(&mut out, c.2);
    proof {
        assert(out@ =~= rgb_dec(c));
    }
    out
}

/// The six variables of palette entry `i` stand at `r[6 i .. 6 i + 6]`.
pub open spec fn entry_vars_ok(r: Seq<(String, String)>, i: int, c: (u8, u8, u8)) -> bool {
    &&& r[6 * i].0@ == color_prefix(i) && r[6 * i].1@ == hash_hex(c)
    &&& r[6 * i + 1].0@ == color_prefix(i) + ".strip"@ && r[6 * i + 1].1@ == bare_hex(c)
    &&& r[6 * i + 2].0@ == color_prefix(i) + ".rgb"@ && r[6 * i + 2].1@ == rgb_dec(c)
    &&& r[6 * i + 3].0@ == color_prefix(i) + ".red"@ && r[6 * i + 3].1@ == norm4(c.0)
    &&& r[6 * i + 4].0@ == color_prefix(i) + ".green"@ && r[6 * i + 4].1@ == norm4(c.1)
    &&& r[6 * i + 5].0@ == color_prefix(i) + ".blue"@ && r[6 * i + 5].1@ == norm4(c.2)
}

/// Lay out the palette as template variables: for each entry its `#rrggbb`
/// hex, bare hex, decimal `r,g,b` and normalized per-channel forms, and the
/// wallpaper path last.
pub fn build_variables(palette: &Vec<(u8, u8, u8)>, wallpaper_path: &str) -> (r: Vec<(
    String,
    String,
)>)
    requires
        palette@.len() <= 9,
    ensures
        r@.len() == 6 * palette@.len() + 1,
        forall|i: int| 0 <= i < palette@.len() ==> entry_vars_ok(r@, i, #[trigger] palette@[i]),
        r@[6 * palette@.len() as int].0@ == "wallpaper"@,
        r@[6 * palette@.len() as int].1@ == wallpaper_path@,
{
    let mut r: Vec<(String, String)> = Vec::new();
    let mut i: usize = 0;
    while i < palette.len()
        invariant
            i <= palette@.len() <= 9,
            r@.len() == 6 * i,
            forall|k: int| 0 <= k < i ==> entry_vars_ok(r@, k, #[trigger] palette@[k]),
        decreases palette@.len() - i,
    {
        proof {
            reveal_strlit("color");
            reveal_strlit(".strip");
            reveal_strlit(".rgb");
            reveal_strlit(".red");
            reveal_strlit(".green");
            reveal_strlit(".blue");
        }
        let c = palette[i];
        let mut prefix = ("color").to_owned();
        push_hex_digit(&mut prefix, i as u8);
        assert(prefix@ == color_prefix(i as int));
        let mut nm_strip = prefix.clone();
        nm_strip.append(".strip");
        let mut nm_rgb = prefix.clone();
        nm_rgb.append(".rgb");
        let mut nm_red = prefix.clone();
        nm_red.append(".red");
        let mut nm_green = prefix.clone();
        nm_green.append(".green");
        let mut nm_blue = prefix.clone();
        nm_blue.append(".blue");
        r.push((prefix, hash_hex_string(c)));
        r.push((nm_strip, bare_hex_string(c)));
        r.push((nm_rgb, rgb_dec_string(c)));
        r.push((nm_red, norm4_string(c.0)));
        r.push((nm_green, norm4_string(c.1)));
        r.push((nm_blue, norm4_string(c.2)));
        i = i + 1;
    }
    let wp = ("wallpaper").to_owned();
    proof {
        reveal_strlit("wallpaper");
    }
    r.push((wp, wallpaper_path.to_owned()));
    r
}

} // verus!
