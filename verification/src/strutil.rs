use vstd::prelude::*;

verus! {

/// Horizontal whitespace: the blanks that may stand before a comment tag
/// or around the payload of a line.
pub open spec fn is_hspace(c: char) -> bool {
    c == ' ' || c == '\t'
}

/// `s` without its leading horizontal whitespace.
pub open spec fn strip_hspace(s: Seq<char>) -> Seq<char>
    decreases s.len(),
{
    if s.len() > 0 && is_hspace(s[0]) {
        strip_hspace(s.drop_first())
    } else {
        s
    }
}

/// `s` without its trailing horizontal whitespace.
pub open spec fn strip_hspace_end(s: Seq<char>) -> Seq<char>
    decreases s.len(),
{
    if s.len() > 0 && is_hspace(s[s.len() - 1]) {
        strip_hspace_end(s.drop_last())
    } else {
        s
    }
}

/// Stripping the front is the same as skipping up to the first
/// non-blank character.
pub proof fn lemma_strip_hspace_skip(s: Seq<char>, k: int)
    requires
        0 <= k <= s.len(),
        forall|i: int| 0 <= i < k ==> is_hspace(s[i]),
        k == s.len() || !is_hspace(s[k]),
    ensures
        strip_hspace(s) == s.skip(k),
    decreases k,
{
    if k == 0 {
        assert(s.skip(0) == s);
    } else {
        lemma_strip_hspace_skip(s.drop_first(), k - 1);
        assert(s.drop_first().skip(k - 1) == s.skip(k));
    }
}

/// Stripping the back is the same as taking up to the last
/// non-blank character.
pub proof fn lemma_strip_hspace_end_take(s: Seq<char>, k: int)
    requires
        0 <= k <= s.len(),
        forall|i: int| k <= i < s.len() ==> is_hspace(s[i]),
        k == 0 || !is_hspace(s[k - 1]),
    ensures
        strip_hspace_end(s) == s.take(k),
    decreases s.len(),
{
    if k == s.len() {
        assert(s.take(k) == s);
    } else {
        lemma_strip_hspace_end_take(s.drop_last(), k);
        assert(s.drop_last().take(k) == s.take(k));
    }
}

/// The index just past the leading horizontal whitespace of `v`.
pub fn skip_hspace(v: &Vec<char>, from: usize) -> (k: usize)
    requires
        from <= v.len(),
    ensures
        from <= k <= v.len(),
        forall|i: int| from <= i < k ==> is_hspace(v@[i]),
        k == v.len() || !is_hspace(v@[k as int]),
        strip_hspace(v@.skip(from as int)) == v@.skip(k as int),
{
    let mut k = from;
    while k < v.len() && (v[k] == ' ' || v[k] == '\t')
        invariant
            from <= k <= v.len(),
            forall|i: int| from <= i < k ==> is_hspace(v@[i]),
        decreases v.len() - k,
    {
        k = k + 1;
    }
    proof {
        lemma_strip_hspace_skip(v@.skip(from as int), k - from);
        assert(v@.skip(from as int).skip(k - from) == v@.skip(k as int));
    }
    k
}

/// A copy of `v[from..to]`.
pub fn subrange_chars(v: &Vec<char>, from: usize, to: usize) -> (r: Vec<char>)
    requires
        from <= to <= v.len(),
    ensures
        r@ == v@.subrange(from as int, to as int),
{
    let mut r: Vec<char> = Vec::new();
    let mut i = from;
    while i < to
        invariant
            from <= i <= to <= v.len(),
            r@ == v@.subrange(from as int, i as int),
        decreases to - i,
    {
        r.push(v[i]);
        i = i + 1;
        proof {
            assert(v@.subrange(from as int, i as int)
                == v@.subrange(from as int, i - 1).push(v@[i - 1]));
        }
    }
    r
}

/// Whitespace in the sense of Rust's `char::is_whitespace`: the Unicode
/// characters with the White_Space property.  Comment text is trimmed by
/// this class, as `str::trim_start` would trim it.
pub open spec fn is_white(c: char) -> bool {
    let u = c as u32;
    u == 0x20 || u == 0x09 || u == 0x0A || u == 0x0B || u == 0x0C || u == 0x0D || u == 0x85 || u
        == 0xA0 || u == 0x1680 || (0x2000 <= u && u <= 0x200A) || u == 0x2028 || u == 0x2029 || u
        == 0x202F || u == 0x205F || u == 0x3000
}

/// Whether `c` is whitespace in the sense of `char::is_whitespace`.
pub fn is_white_char(c: char) -> (r: bool)
    ensures
        r == is_white(c),
{
    let u = c as u32;
    u == 0x20 || u == 0x09 || u == 0x0A || u == 0x0B || u == 0x0C || u == 0x0D || u == 0x85 || u
        == 0xA0 || u == 0x1680 || (0x2000 <= u && u <= 0x200A) || u == 0x2028 || u == 0x2029 || u
        == 0x202F || u == 0x205F || u == 0x3000
}

/// `s` without its leading whitespace, whitespace read as `char::is_whitespace`.
pub open spec fn strip_white(s: Seq<char>) -> Seq<char>
    decreases s.len(),
{
    if s.len() > 0 && is_white(s[0]) {
        strip_white(s.drop_first())
    } else {
        s
    }
}

/// Stripping leading whitespace is the same as skipping up to the first
/// non-whitespace character.
pub proof fn lemma_strip_white_skip(s: Seq<char>, k: int)
    requires
        0 <= k <= s.len(),
        forall|i: int| 0 <= i < k ==> is_white(s[i]),
        k == s.len() || !is_white(s[k]),
    ensures
        strip_white(s) == s.skip(k),
    decreases k,
{
    if k == 0 {
        assert(s.skip(0) == s);
    } else {
        lemma_strip_white_skip(s.drop_first(), k - 1);
        assert(s.drop_first().skip(k - 1) == s.skip(k));
    }
}

/// `v` without its leading whitespace, whitespace read as
/// `char::is_whitespace`.
pub fn trim_white_start(v: &Vec<char>) -> (r: Vec<char>)
    ensures
        r@ == strip_white(v@),
{
    let mut k: usize = 0;
    while k < v.len() && is_white_char(v[k])
        invariant
            k <= v.len(),
            forall|i: int| 0 <= i < k ==> is_white(v@[i]),
        decreases v.len() - k,
    {
        k = k + 1;
    }
    proof {
        lemma_strip_white_skip(v@, k as int);
    }
    let r = subrange_chars(v, k, v.len());
    proof {
        assert(r@ =~= v@.skip(k as int));
    }
    r
}

/// Appends every character of `src` to `dst`.
pub fn push_all(dst: &mut Vec<char>, src: &Vec<char>)
    ensures
        final(dst)@ == old(dst)@ + src@,
{
    let mut i: usize = 0;
    while i < src.len()
        invariant
            i <= src.len(),
            dst@ == old(dst)@ + src@.take(i as int),
        decreases src.len() - i,
    {
        dst.push(src[i]);
        i = i + 1;
        proof {
            assert(src@.take(i as int) == src@.take(i - 1).push(src@[i - 1]));
        }
    }
    proof {
        assert(src@.take(src@.len() as int) == src@);
    }
}

/// Relies on `str::chars`: yields the characters of the slice, in order.
#[verifier::external_body]
pub fn str_chars_vec(s: &str) -> (v: Vec<char>)
    ensures
        v@ == s@,
{
    s.chars().collect()
}

/// Relies on `String`'s `FromIterator<char>`: collecting characters in
/// order gives the string of exactly those characters.
#[verifier::external_body]
pub fn string_from_chars(v: &Vec<char>) -> (s: String)
    ensures
        s@ == v@,
{
    v.iter().collect()
}

} // verus!
