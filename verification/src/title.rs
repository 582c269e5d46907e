//! Parsing of recording titles of the form
//! `"<tag> - <common name> - <scientific name>.<ext>"`, normalization of
//! common names into species keys, and the canonical `<species>_<n>.wav`
//! filenames with their numeric suffixes.
use vstd::prelude::*;
use crate::text::all_digits;
use crate::text::chars_to_string;
use crate::text::copy_range;
use crate::text::dec_rep;
use crate::text::digits_val;
use crate::text::ends_with;
use crate::text::lemma_dec_rep_val;
use crate::text::occurs_at;
use crate::text::parse_digits;
use crate::text::pat_free;
use crate::text::push_all;
use crate::text::push_dec;
use crate::text::spec_split;
use crate::text::spec_trim;
use crate::text::split_pat;
use crate::text::starts_with;
use crate::text::str_to_chars;
use crate::text::trim;

verus! {

// ---------- fixed character sequences ----------

/// The title separator `" - "`.
pub open spec fn sep() -> Seq<char> {
    seq![' ', '-', ' ']
}

fn sep_exec() -> (r: Vec<char>)
    ensures
        r@ == sep(),
{
    let mut v: Vec<char> = Vec::new();
    v.push(' ');
    v.push('-');
    v.push(' ');
    proof {
        assert(v@ =~= sep());
    }
    v
}

/// The placeholder used for a missing or unparseable field.
pub open spec fn unknown() -> Seq<char> {
    seq!['u', 'n', 'k', 'n', 'o', 'w', 'n']
}

fn unknown_exec() -> (r: Vec<char>)
    ensures
        r@ == unknown(),
{
    let v = str_to_chars("unknown");
    proof {
        reveal_strlit("unknown");
        assert(v@ =~= unknown());
    }
    v
}

/// The placeholder `"unknown"` as a `String`.
pub fn unknown_string() -> (r: String)
    ensures
        r@ == unknown(),
{
    let v = unknown_exec();
    chars_to_string(&v)
}

/// The source media extension `".mp3"`.
pub open spec fn mp3_suffix() -> Seq<char> {
    seq!['.', 'm', 'p', '3']
}

fn mp3_suffix_exec() -> (r: Vec<char>)
    ensures
        r@ == mp3_suffix(),
{
    let v = str_to_chars(".mp3");
    proof {
        reveal_strlit(".mp3");
        assert(v@ =~= mp3_suffix());
    }
    v
}

/// The canonical media extension `".wav"`.
pub open spec fn wav_suffix() -> Seq<char> {
    seq!['.', 'w', 'a', 'v']
}

pub fn wav_suffix_exec() -> (r: Vec<char>)
    ensures
        r@ == wav_suffix(),
{
    let v = str_to_chars(".wav");
    proof {
        reveal_strlit(".wav");
        assert(v@ =~= wav_suffix());
    }
    v
}

// ---------- title parsing ----------

/// `s` ends with the media extension `ext`.
pub open spec fn has_ext(s: Seq<char>, ext: Seq<char>) -> bool {
    s.len() >= ext.len() && s.skip(s.len() - ext.len()) == ext
}

/// `s` with a trailing media-extension suffix removed, if one is present.
pub open spec fn strip_media_ext(s: Seq<char>) -> Seq<char> {
    if has_ext(s, mp3_suffix()) || has_ext(s, wav_suffix()) {
        s.take(s.len() - 4)
    } else {
        s
    }
}

/// The (common name, scientific name) fields of a title: the text is split on
/// `" - "`; the second part, trimmed, is the common name; the third part,
/// trimmed and with a trailing media extension removed, is the scientific
/// name; a missing part yields `"unknown"`.
pub open spec fn spec_title_fields(t: Seq<char>) -> (Seq<char>, Seq<char>) {
    let parts = spec_split(t, sep());
    (
        if parts.len() >= 2 {
            spec_trim(parts[1])
        } else {
            unknown()
        },
        if parts.len() >= 3 {
            strip_media_ext(spec_trim(parts[2]))
        } else {
            unknown()
        },
    )
}

fn strip_media_ext_exec(v: Vec<char>) -> (r: Vec<char>)
    ensures
        r@ == strip_media_ext(v@),
{
    let mp3 = mp3_suffix_exec();
    let wav = wav_suffix_exec();
    if ends_with(&v, &mp3) || ends_with(&v, &wav) {
        copy_range(&v, 0, v.len() - 4)
    } else {
        v
    }
}

/// Parse a recording title into its common name and scientific name.
/// Malformed titles never fail: missing fields come back as `"unknown"`.
pub fn parse_title(title: &str) -> (r: (String, String))
    ensures
        (r.0@, r.1@) == spec_title_fields(title@),
{
    let chars = str_to_chars(title);
    let sep_v = sep_exec();
    let parts = split_pat(&chars, &sep_v);
    let common: Vec<char> = if parts.len() >= 2 {
        proof {
            assert(parts@[1].deep_view() =~= parts@[1]@);
        }
        trim(&parts[1])
    } else {
        unknown_exec()
    };
    let sci: Vec<char> = if parts.len() >= 3 {
        proof {
            assert(parts@[2].deep_view() =~= parts@[2]@);
        }
        strip_media_ext_exec(trim(&parts[2]))
    } else {
        unknown_exec()
    };
    (chars_to_string(&common), chars_to_string(&sci))
}

// ---------- well-formed titles parse exactly ----------

proof fn lemma_sep_chars(s: Seq<char>, j: int)
    requires
        occurs_at(s, sep(), j),
    ensures
        s[j] == ' ',
        s[j + 1] == '-',
        s[j + 2] == ' ',
{
    assert(s.subrange(j, j + 3)[0] == s[j]);
    assert(s.subrange(j, j + 3)[1] == s[j + 1]);
    assert(s.subrange(j, j + 3)[2] == s[j + 2]);
}

/// The separator does not occur across or inside a trailing media extension.
proof fn lemma_ext_sep_free(z: Seq<char>, ext: Seq<char>)
    requires
        pat_free(z, sep()),
        ext == mp3_suffix() || ext == wav_suffix(),
    ensures
        pat_free(z + ext, sep()),
{
    let zf = z + ext;
    assert forall|j: int| !occurs_at(zf, sep(), j) by {
        if occurs_at(zf, sep(), j) {
            lemma_sep_chars(zf, j);
            if j + 3 <= z.len() {
                assert(zf.subrange(j, j + 3) =~= z.subrange(j, j + 3));
                assert(occurs_at(z, sep(), j));
            } else if j < z.len() {
                if j == z.len() - 1 {
                    assert(zf[j + 1] == ext[0]);
                } else {
                    assert(j == z.len() - 2);
                    assert(zf[j + 2] == ext[0]);
                }
            } else {
                if j == z.len() {
                    assert(zf[j] == ext[0]);
                } else {
                    assert(j == z.len() + 1);
                    assert(zf[j] == ext[1]);
                }
            }
        }
    }
}

/// A well-formed title `"<tag> - <common> - <sci>.<ext>"` parses to exactly
/// its common name and its scientific name with the extension stripped;
/// `x`, `y`, `z` must not themselves contain the separator, nor form one at
/// a boundary, and `y` and `z.<ext>` must carry no surrounding whitespace.
#[verifier::rlimit(60)]
pub proof fn lemma_title_round(x: Seq<char>, y: Seq<char>, z: Seq<char>, ext: Seq<char>)
    requires
        pat_free(x, sep()),
        pat_free(y, sep()),
        pat_free(z, sep()),
        !(x.len() >= 2 && x[x.len() - 2] == ' ' && x[x.len() - 1] == '-'),
        !(y.len() >= 2 && y[0] == '-' && y[1] == ' '),
        !(y.len() >= 2 && y[y.len() - 2] == ' ' && y[y.len() - 1] == '-'),
        !(z.len() >= 2 && z[0] == '-' && z[1] == ' '),
        ext == mp3_suffix() || ext == wav_suffix(),
        spec_trim(y) == y,
        spec_trim(z + ext) == z + ext,
    ensures
        spec_title_fields(x + sep() + y + sep() + z + ext) == (y, z),
{
    let zf = z + ext;
    let t = x + sep() + y + sep() + zf;
    assert(t =~= x + sep() + y + sep() + z + ext);
    let a = x.len() as int;
    lemma_ext_sep_free(z, ext);

    // the first separator stands exactly at the end of x
    assert(occurs_at(t, sep(), a)) by {
        assert(t.subrange(a, a + 3) =~= sep());
    }
    assert forall|j: int| 0 <= j < a implies !occurs_at(t, sep(), j) by {
        if occurs_at(t, sep(), j) {
            lemma_sep_chars(t, j);
            if j + 3 <= a {
                assert(t.subrange(j, j + 3) =~= x.subrange(j, j + 3));
                assert(occurs_at(x, sep(), j));
            } else if j == a - 1 {
                assert(t[j + 1] == sep()[0]);
            } else {
                assert(j == a - 2);
                assert(t[j] == x[x.len() - 2] && t[j + 1] == x[x.len() - 1]);
            }
        }
    }
    crate::text::lemma_split_at_first(t, sep(), Seq::empty(), a);
    let rest = y + sep() + zf;
    assert(t.skip(a + 3) =~= rest);
    assert(Seq::<char>::empty() + t.take(a) =~= x);

    // the second separator stands exactly at the end of y
    let c = y.len() as int;
    assert(occurs_at(rest, sep(), c)) by {
        assert(rest.subrange(c, c + 3) =~= sep());
    }
    assert forall|j: int| 0 <= j < c implies !occurs_at(rest, sep(), j) by {
        if occurs_at(rest, sep(), j) {
            lemma_sep_chars(rest, j);
            if j + 3 <= c {
                assert(rest.subrange(j, j + 3) =~= y.subrange(j, j + 3));
                assert(occurs_at(y, sep(), j));
            } else if j == c - 1 {
                assert(rest[j + 1] == sep()[0]);
            } else {
                assert(j == c - 2);
                assert(rest[j] == y[y.len() - 2] && rest[j + 1] == y[y.len() - 1]);
            }
        }
    }
    crate::text::lemma_split_at_first(rest, sep(), Seq::empty(), c);
    assert(rest.skip(c + 3) =~= zf);
    assert(Seq::<char>::empty() + rest.take(c) =~= y);
    crate::text::lemma_split_no_occurrence(zf, sep(), Seq::empty());
    assert(Seq::<char>::empty() + zf =~= zf);

    let parts = spec_split(t, sep());
    assert(parts =~= seq![x, y, zf]);

    // the fields: y stands trimmed; zf loses its extension
    assert(has_ext(zf, ext)) by {
        assert(zf.skip(zf.len() - 4) =~= ext);
    }
    assert(strip_media_ext(zf) =~= z);
}

// ---------- species normalization ----------

/// Relies on str::to_lowercase: the result is a pure function of the
/// characters of the input alone.
pub uninterp spec fn lower_of(s: Seq<char>) -> Seq<char>;

/// Relies on str::to_lowercase: returns the Unicode lowercase form of `s`,
/// a pure function of the characters of `s`.
#[verifier::external_body]
fn to_lowercase(s: &str) -> (r: String)
    ensures
        r@ == lower_of(s@),
{
    s.to_lowercase()
}

pub open spec fn space_to_underscore(c: char) -> char {
    if c == ' ' {
        '_'
    } else {
        c
    }
}

/// The species key of a common name: its lowercase form with every space
/// replaced by an underscore.
pub open spec fn spec_species(name: Seq<char>) -> Seq<char> {
    lower_of(name).map_values(|c: char| space_to_underscore(c))
}

/// Normalize a common name into its species key.
pub fn format_species_name(name: &str) -> (r: String)
    ensures
        r@ == spec_species(name@),
{
    let low = to_lowercase(name);
    let chars = str_to_chars(low.as_str());
    let mut out: Vec<char> = Vec::new();
    let mut i: usize = 0;
    while i < chars.len()
        invariant
            i <= chars@.len(),
            out@ =~= chars@.take(i as int).map_values(|c: char| space_to_underscore(c)),
        decreases chars@.len() - i,
    {
        let c = chars[i];
        if c == ' ' {
            out.push('_');
        } else {
            out.push(c);
        }
        proof {
            let ghost cc = chars@[i as int];
            assert(chars@.take(i + 1).map_values(|c: char| space_to_underscore(c)) =~= chars@.take(
                i as int,
            ).map_values(|c: char| space_to_underscore(c)).push(space_to_underscore(cc)));
        }
        i = i + 1;
    }
    proof {
        assert(chars@.take(chars@.len() as int) =~= chars@);
    }
    chars_to_string(&out)
}

// ---------- canonical filenames ----------

/// The canonical filename `<species>_<n>.wav`.
pub open spec fn spec_filename(species: Seq<char>, n: nat) -> Seq<char> {
    species + seq!['_'] + dec_rep(n) + wav_suffix()
}

/// Build the canonical filename for a species and suffix number.
pub fn make_filename(species: &Vec<char>, n: u64) -> (r: Vec<char>)
    ensures
        r@ == spec_filename(species@, n as nat),
{
    let mut out: Vec<char> = Vec::new();
    push_all(&mut out, species);
    out.push('_');
    push_dec(n, &mut out);
    let wav = wav_suffix_exec();
    push_all(&mut out, &wav);
    proof {
        assert(out@ =~= spec_filename(species@, n as nat));
    }
    out
}

/// The numeric suffix of `filename` under `species`: the value `n` such that
/// `filename` is `<species>_<digits of n>.wav`, if the name has that shape
/// and the value fits in `u64`.
pub open spec fn spec_suffix_of(filename: Seq<char>, species: Seq<char>) -> Option<nat> {
    let pre = species + seq!['_'];
    let mid = filename.subrange(pre.len() as int, filename.len() - 4);
    if filename.len() >= pre.len() + 5 && filename.take(pre.len() as int) == pre && filename.skip(
        filename.len() - 4,
    ) == wav_suffix() && all_digits(mid) && digits_val(mid) <= u64::MAX {
        Some(digits_val(mid))
    } else {
        None
    }
}

/// Extract the numeric suffix of a filename under a species prefix.
pub fn suffix_of(filename: &Vec<char>, species: &Vec<char>) -> (r: Option<u64>)
    ensures
        match r {
            Some(n) => spec_suffix_of(filename@, species@) == Some(n as nat),
            None => spec_suffix_of(filename@, species@) is None,
        },
{
    let mut pre: Vec<char> = Vec::new();
    push_all(&mut pre, species);
    pre.push('_');
    proof {
        assert(pre@ =~= species@ + seq!['_']);
    }
    if filename.len() < pre.len() || filename.len() - pre.len() < 5 {
        return None;
    }
    if !starts_with(filename, &pre) {
        return None;
    }
    let wav = wav_suffix_exec();
    if !ends_with(filename, &wav) {
        return None;
    }
    parse_digits(filename, pre.len(), filename.len() - 4)
}

/// The canonical filename for (`species`, `n`) parses back to suffix `n`.
pub proof fn lemma_filename_suffix(species: Seq<char>, n: nat)
    requires
        n <= u64::MAX,
    ensures
        spec_suffix_of(spec_filename(species, n), species) == Some(n),
{
    lemma_dec_rep_val(n);
    let f = spec_filename(species, n);
    let pre = species + seq!['_'];
    assert(f.len() == pre.len() + dec_rep(n).len() + 4);
    assert(f.take(pre.len() as int) =~= pre);
    assert(f.skip(f.len() - 4) =~= wav_suffix());
    assert(f.subrange(pre.len() as int, f.len() - 4) =~= dec_rep(n));
}

} // verus!
