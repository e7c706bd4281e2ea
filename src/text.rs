//! Character-level text handling: whitespace normalisation, token substitution,
//! case folding and substring search.
use vstd::prelude::*;

verus! {

/// Unicode `White_Space` code points, as `char::is_whitespace` classifies them.
pub open spec fn is_space(c: char) -> bool {
    let n = c as u32;
    (0x9 <= n && n <= 0xD) || n == 0x20 || n == 0x85 || n == 0xA0 || n == 0x1680 || (0x2000 <= n
        && n <= 0x200A) || n == 0x2028 || n == 0x2029 || n == 0x202F || n == 0x205F || n == 0x3000
}

/// The text with leading and trailing whitespace removed and every inner run of
/// whitespace replaced by a single space.
pub open spec fn collapse_spaces(s: Seq<char>) -> Seq<char>
    decreases s.len(),
{
    if s.len() == 0 {
        Seq::empty()
    } else {
        let p = s.drop_last();
        let c = s.last();
        if is_space(c) {
            collapse_spaces(p)
        } else if collapse_spaces(p).len() > 0 && is_space(p.last()) {
            collapse_spaces(p).push(' ').push(c)
        } else {
            collapse_spaces(p).push(c)
        }
    }
}

/// Whether `needle` occurs in `hay` starting at position `i`.
pub open spec fn occurs_at(hay: Seq<char>, needle: Seq<char>, i: int) -> bool {
    0 <= i && i + needle.len() <= hay.len() && hay.subrange(i, i + needle.len()) == needle
}

/// Whether `needle` occurs somewhere in `hay`.
pub open spec fn contains_text(hay: Seq<char>, needle: Seq<char>) -> bool {
    exists|i: int| occurs_at(hay, needle, i)
}

/// Every non-overlapping occurrence of `from` in `s`, scanned left to right,
/// replaced by `to`.
pub open spec fn replace_all(s: Seq<char>, from: Seq<char>, to: Seq<char>) -> Seq<char>
    decreases s.len(),
{
    if s.len() == 0 || from.len() == 0 {
        s
    } else if from.len() <= s.len() && s.take(from.len() as int) == from {
        to + replace_all(s.skip(from.len() as int), from, to)
    } else {
        seq![s[0]] + replace_all(s.skip(1), from, to)
    }
}

/// What `str::to_lowercase` makes of a text.
pub uninterp spec fn lower_of(s: Seq<char>) -> Seq<char>;

/// Case-insensitive containment: `needle` occurs in `hay` once both are lowercased.
pub open spec fn folded_contains(hay: Seq<char>, needle: Seq<char>) -> bool {
    contains_text(lower_of(hay), lower_of(needle))
}

/// Relies on `str::chars`, collected into a `Vec`: the characters of the text, in order.
#[verifier::external_body]
pub(crate) fn chars_of(s: &str) -> (r: Vec<char>)
    ensures
        r@ == s@,
{
    s.chars().collect()
}

/// Relies on `FromIterator<&char>` for `String`: the text made of the characters, in order.
#[verifier::external_body]
pub(crate) fn string_of(v: &Vec<char>) -> (r: String)
    ensures
        r@ == v@,
{
    v.iter().collect()
}

/// Relies on `str::to_lowercase`: the lowercase form depends on the text alone.
#[verifier::external_body]
pub(crate) fn lowercase(s: &str) -> (r: String)
    ensures
        r@ == lower_of(s@),
{
    s.to_lowercase()
}

/// Whether `c` is Unicode whitespace.
pub fn is_whitespace_char(c: char) -> (r: bool)
    ensures
        r == is_space(c),
{
    let n = c as u32;
    (0x9 <= n && n <= 0xD) || n == 0x20 || n == 0x85 || n == 0xA0 || n == 0x1680 || (0x2000 <= n
        && n <= 0x200A) || n == 0x2028 || n == 0x2029 || n == 0x202F || n == 0x205F || n == 0x3000
}

/// Trims both ends of `input` and collapses each run of whitespace into one space.
pub fn trim_extra_spaces(input: &str) -> (r: String)
    ensures
        r@ == collapse_spaces(input@),
{
    let cs = chars_of(input);
    let mut out: Vec<char> = Vec::new();
    let mut gap = false;
    let mut i: usize = 0;
    while i < cs.len()
        invariant
            i <= cs@.len(),
            cs@ == input@,
            out@ == collapse_spaces(cs@.take(i as int)),
            gap == (i > 0 && is_space(cs@[i - 1])),
        decreases cs@.len() - i,
    {
        let c = cs[i];
        proof {
            let t = cs@.take(i + 1);
            assert(t.drop_last() =~= cs@.take(i as int));
            assert(t.last() == c);
            if i > 0 {
                assert(t.drop_last().last() == cs@[i - 1]);
            }
        }
        if is_whitespace_char(c) {
            gap = true;
        } else {
            if gap && out.len() > 0 {
                out.push(' ');
            }
            out.push(c);
            gap = false;
        }
        i = i + 1;
    }
    proof {
        assert(cs@.take(cs@.len() as int) =~= cs@);
    }
    string_of(&out)
}

/// Whether `needle` occurs in `hay` at position `i`, compared character by character.
fn occurs_here(hay: &Vec<char>, needle: &Vec<char>, i: usize) -> (r: bool)
    requires
        i + needle.len() <= hay.len(),
    ensures
        r == occurs_at(hay@, needle@, i as int),
{
    let mut j: usize = 0;
    while j < needle.len()
        invariant
            i + needle.len() <= hay.len(),
            j <= needle@.len(),
            forall|k: int| 0 <= k < j ==> hay@[i + k] == needle@[k],
        decreases needle@.len() - j,
    {
        if hay[i + j] != needle[j] {
            proof {
                let sub = hay@.subrange(i as int, i + needle@.len());
                assert(sub[j as int] != needle@[j as int]);
            }
            return false;
        }
        j = j + 1;
    }
    proof {
        assert(hay@.subrange(i as int, i + needle@.len()) =~= needle@);
    }
    true
}

/// Whether `needle` occurs anywhere in `hay`.
pub fn text_contains(hay: &Vec<char>, needle: &Vec<char>) -> (r: bool)
    ensures
        r == contains_text(hay@, needle@),
{
    if needle.len() > hay.len() {
        assert forall|i: int| !occurs_at(hay@, needle@, i) by {}
        return false;
    }
    let last = hay.len() - needle.len();
    let mut i: usize = 0;
    loop
        invariant
            last + needle.len() == hay.len(),
            i <= last,
            forall|k: int| 0 <= k < i ==> !occurs_at(hay@, needle@, k),
        decreases last - i,
    {
        if occurs_here(hay, needle, i) {
            return true;
        }
        if i == last {
            assert forall|k: int| !occurs_at(hay@, needle@, k) by {}
            return false;
        }
        i = i + 1;
    }
}

/// Whether `hay` contains `needle` once both are lowercased; the arguments are
/// the lowercased texts.
pub fn matches_folded(hay_lower: &str, needle_lower: &str) -> (r: bool)
    ensures
        r == contains_text(hay_lower@, needle_lower@),
{
    let h = chars_of(hay_lower);
    let n = chars_of(needle_lower);
    text_contains(&h, &n)
}

/// Case-insensitive substring test.
pub fn contains_ignoring_case(hay: &str, needle: &str) -> (r: bool)
    ensures
        r == folded_contains(hay@, needle@),
{
    let h = lowercase(hay);
    let n = lowercase(needle);
    matches_folded(h.as_str(), n.as_str())
}

/// Replaces every occurrence of `from` in `s` by `to`, left to right.
pub fn replace_text(s: &Vec<char>, from: &Vec<char>, to: &Vec<char>) -> (r: Vec<char>)
    ensures
        r@ == replace_all(s@, from@, to@),
{
    if from.len() == 0 {
        return s.clone();
    }
    let mut out: Vec<char> = Vec::new();
    let mut i: usize = 0;
    proof {
        assert(s@.skip(0) =~= s@);
        assert(out@ + replace_all(s@, from@, to@) =~= replace_all(s@, from@, to@));
    }
    while i < s.len()
        invariant
            from@.len() > 0,
            i <= s@.len(),
            replace_all(s@, from@, to@) == out@ + replace_all(s@.skip(i as int), from@, to@),
        decreases s@.len() - i,
    {
        let rest = Ghost(s@.skip(i as int));
        let before = Ghost(out@);
        if from.len() <= s.len() - i && occurs_here(s, from, i) {
            proof {
                assert(rest@.take(from@.len() as int) =~= s@.subrange(
                    i as int,
                    i + from@.len(),
                ));
                assert(rest@.skip(from@.len() as int) =~= s@.skip(i + from@.len()));
            }
            append_chars(&mut out, to);
            i = i + from.len();
            proof {
                let tail = replace_all(s@.skip(i as int), from@, to@);
                assert(before@ + (to@ + tail) =~= out@ + tail);
            }
        } else {
            proof {
                if from@.len() <= rest@.len() {
                    assert(rest@.take(from@.len() as int) =~= s@.subrange(
                        i as int,
                        i + from@.len(),
                    ));
                }
                assert(rest@.skip(1) =~= s@.skip(i + 1));
                assert(seq![rest@[0]] =~= seq![s@[i as int]]);
            }
            out.push(s[i]);
            i = i + 1;
            proof {
                let tail = replace_all(s@.skip(i as int), from@, to@);
                assert(before@ + (seq![rest@[0]] + tail) =~= out@ + tail);
            }
        }
    }
    proof {
        assert(s@.skip(i as int).len() == 0);
        assert(out@ + s@.skip(i as int) =~= out@);
    }
    out
}

/// Appends the characters of `more` to `out`.
pub fn append_chars(out: &mut Vec<char>, more: &Vec<char>)
    ensures
        final(out)@ == old(out)@ + more@,
{
    let mut j: usize = 0;
    while j < more.len()
        invariant
            j <= more@.len(),
            out@ == old(out)@ + more@.take(j as int),
        decreases more@.len() - j,
    {
        out.push(more[j]);
        j = j + 1;
        proof {
            assert(more@.take(j as int) =~= more@.take(j - 1).push(more@[j - 1]));
        }
    }
    proof {
        assert(more@.take(j as int) =~= more@);
    }
}

/// Appends the characters of `more` to `out`.
pub fn append_str(out: &mut Vec<char>, more: &str)
    ensures
        final(out)@ == old(out)@ + more@,
{
    let cs = chars_of(more);
    append_chars(out, &cs);
}

/// A name cut to at most `max_len` characters: kept whole when it fits, else
/// its first `max_len - 1` characters followed by a dot.
pub open spec fn truncated(name: Seq<char>, max_len: nat) -> Seq<char> {
    if name.len() <= max_len {
        name
    } else {
        name.take(if max_len == 0 { 0 } else { max_len - 1 }) + "."@
    }
}

/// A name cut to at most `max_len` characters, marked with a dot when cut.
pub fn truncate_name(name: &str, max_len: usize) -> (r: String)
    ensures
        r@ == truncated(name@, max_len as nat),
{
    let cs = chars_of(name);
    if cs.len() <= max_len {
        return string_of(&cs);
    }
    let keep: usize = if max_len == 0 { 0 } else { max_len - 1 };
    let mut out: Vec<char> = Vec::new();
    let mut i: usize = 0;
    while i < keep
        invariant
            i <= keep,
            keep < cs@.len(),
            out@ == cs@.take(i as int),
        decreases keep - i,
    {
        out.push(cs[i]);
        i = i + 1;
        proof {
            assert(cs@.take(i as int) =~= cs@.take(i - 1).push(cs@[i - 1]));
        }
    }
    append_str(&mut out, ".");
    string_of(&out)
}

} // verus!
