//! Character-level helpers shared by key normalization and the catalog codec.
//!
//! Unicode case folding and the alphabetic test are taken from std behind
//! trusted wrappers; everything layered on top of them is verified. The
//! module also defines the lexicographic order on character sequences that
//! merged results are sorted by.

use vstd::prelude::*;

verus! {

/// The sequence of characters that `char::to_lowercase` yields for one
/// character. A function of the character alone.
pub uninterp spec fn lower_chars_of(c: char) -> Seq<char>;

/// Whether `char::is_alphabetic` holds of a character. A function of the
/// character alone.
pub uninterp spec fn is_alpha_char(c: char) -> bool;

/// Relies on char::to_lowercase: the Unicode lowercase mapping of a
/// character, which depends on the character alone.
#[verifier::external_body]
pub(crate) fn char_lowercase(c: char) -> (r: String)
    ensures
        r@ == lower_chars_of(c),
{
    c.to_lowercase().collect()
}

/// Relies on char::is_alphabetic: whether a character is alphabetic depends
/// on the character alone.
#[verifier::external_body]
pub(crate) fn char_is_alphabetic(c: char) -> (r: bool)
    ensures
        r == is_alpha_char(c),
{
    c.is_alphabetic()
}

/// Relies on the Display impl of char, documented to format as exactly that
/// single character.
#[verifier::external_body]
pub(crate) fn char_to_string(c: char) -> (r: String)
    ensures
        r@ == seq![c],
{
    c.to_string()
}

/// The case-folded, alphabetic-only projection of a character sequence:
/// non-alphabetic characters are dropped, alphabetic ones are replaced by
/// their lowercase expansion.
pub open spec fn norm_of(s: Seq<char>) -> Seq<char>
    decreases s.len(),
{
    if s.len() == 0 {
        Seq::empty()
    } else {
        norm_of(s.drop_last()) + (if is_alpha_char(s.last()) {
            lower_chars_of(s.last())
        } else {
            Seq::empty()
        })
    }
}

/// Strict lexicographic order on character sequences by code point, the
/// order `str` comparison uses.
pub open spec fn seq_lt(a: Seq<char>, b: Seq<char>) -> bool
    decreases a.len(),
{
    if b.len() == 0 {
        false
    } else if a.len() == 0 {
        true
    } else if a[0] != b[0] {
        (a[0] as int) < (b[0] as int)
    } else {
        seq_lt(a.drop_first(), b.drop_first())
    }
}

/// Reflexive closure of `seq_lt`.
pub open spec fn seq_le(a: Seq<char>, b: Seq<char>) -> bool {
    seq_lt(a, b) || a == b
}

/// Two sequences with equal heads and equal tails are equal.
proof fn lemma_eq_from_parts(a: Seq<char>, b: Seq<char>)
    requires
        a.len() > 0,
        b.len() > 0,
        a[0] == b[0],
        a.drop_first() == b.drop_first(),
    ensures
        a == b,
{
    assert(a.subrange(1, a.len() as int) == b.subrange(1, b.len() as int));
    assert(a.len() == b.len());
    assert forall|i: int| 0 <= i < a.len() implies a[i] == b[i] by {
        if i >= 1 {
            assert(a.subrange(1, a.len() as int)[i - 1] == a[i]);
            assert(b.subrange(1, b.len() as int)[i - 1] == b[i]);
        }
    }
    assert(a =~= b);
}

/// `seq_lt` is irreflexive.
pub proof fn lemma_seq_lt_irrefl(a: Seq<char>)
    ensures
        !seq_lt(a, a),
    decreases a.len(),
{
    if a.len() > 0 {
        lemma_seq_lt_irrefl(a.drop_first());
    }
}

/// Any two character sequences are ordered or equal.
pub proof fn lemma_seq_lt_connex(a: Seq<char>, b: Seq<char>)
    ensures
        seq_lt(a, b) || seq_lt(b, a) || a == b,
    decreases a.len(),
{
    if b.len() == 0 {
        if a.len() == 0 {
            assert(a =~= b);
        } else {
            assert(seq_lt(b, a));
        }
    } else if a.len() == 0 {
        assert(seq_lt(a, b));
    } else if a[0] != b[0] {
        if (a[0] as int) < (b[0] as int) {
            assert(seq_lt(a, b));
        } else {
            assert((b[0] as int) < (a[0] as int));
            assert(seq_lt(b, a));
        }
    } else {
        lemma_seq_lt_connex(a.drop_first(), b.drop_first());
        if a.drop_first() == b.drop_first() {
            lemma_eq_from_parts(a, b);
        } else if seq_lt(a.drop_first(), b.drop_first()) {
            assert(seq_lt(a, b));
        } else {
            assert(seq_lt(b, a));
        }
    }
}

/// `seq_lt` is asymmetric.
pub proof fn lemma_seq_lt_asym(a: Seq<char>, b: Seq<char>)
    ensures
        !(seq_lt(a, b) && seq_lt(b, a)),
    decreases a.len(),
{
    if a.len() > 0 && b.len() > 0 && a[0] == b[0] {
        lemma_seq_lt_asym(a.drop_first(), b.drop_first());
    }
}

/// `seq_lt` is transitive.
pub proof fn lemma_seq_lt_trans(a: Seq<char>, b: Seq<char>, c: Seq<char>)
    ensures
        seq_lt(a, b) && seq_lt(b, c) ==> seq_lt(a, c),
    decreases a.len(),
{
    if a.len() > 0 && b.len() > 0 && c.len() > 0 {
        lemma_seq_lt_trans(a.drop_first(), b.drop_first(), c.drop_first());
    }
}

/// Dropping a shared first character preserves order and equality.
proof fn lemma_seq_lt_skip_one(a: Seq<char>, b: Seq<char>)
    requires
        a.len() > 0,
        b.len() > 0,
        a[0] == b[0],
    ensures
        seq_lt(a, b) == seq_lt(a.drop_first(), b.drop_first()),
        (a == b) == (a.drop_first() == b.drop_first()),
{
    if a.drop_first() == b.drop_first() {
        lemma_eq_from_parts(a, b);
    }
}

/// Compares two strings; returns whether the first sorts strictly before
/// the second, and whether they are equal.
pub(crate) fn str_cmp(a: &str, b: &str) -> (r: (bool, bool))
    ensures
        r.0 == seq_lt(a@, b@),
        r.1 == (a@ == b@),
{
    let alen = a.unicode_len();
    let blen = b.unicode_len();
    let mut i: usize = 0;
    proof {
        assert(a@.skip(0) =~= a@);
        assert(b@.skip(0) =~= b@);
    }
    loop
        invariant
            i <= alen,
            i <= blen,
            alen == a@.len(),
            blen == b@.len(),
            seq_lt(a@, b@) == seq_lt(a@.skip(i as int), b@.skip(i as int)),
            (a@ == b@) == (a@.skip(i as int) == b@.skip(i as int)),
        decreases alen - i,
    {
        if i == alen || i == blen {
            if i == alen && i == blen {
                assert(a@.skip(i as int) =~= Seq::<char>::empty());
                assert(b@.skip(i as int) =~= Seq::<char>::empty());
                return (false, true);
            } else if i == alen {
                assert(a@.skip(i as int) =~= Seq::<char>::empty());
                assert(b@.skip(i as int).len() > 0);
                return (true, false);
            } else {
                assert(b@.skip(i as int) =~= Seq::<char>::empty());
                assert(a@.skip(i as int).len() > 0);
                return (false, false);
            }
        }
        let ca = a.get_char(i);
        let cb = b.get_char(i);
        assert(a@.skip(i as int)[0] == a@[i as int]);
        assert(b@.skip(i as int)[0] == b@[i as int]);
        if (ca as u32) != (cb as u32) {
            assert(ca != cb);
            assert(a@.skip(i as int) != b@.skip(i as int)) by {
                assert(a@.skip(i as int)[0] != b@.skip(i as int)[0]);
            }
            return ((ca as u32) < (cb as u32), false);
        }
        assert(ca == cb);
        proof {
            lemma_seq_lt_skip_one(a@.skip(i as int), b@.skip(i as int));
            assert(a@.skip(i as int).drop_first() =~= a@.skip(i + 1));
            assert(b@.skip(i as int).drop_first() =~= b@.skip(i + 1));
        }
        i = i + 1;
    }
}

/// The suffix of `s` after its last `/`, or all of `s` when it has none.
pub open spec fn filename_of(s: Seq<char>) -> Seq<char>
    decreases s.len(),
{
    if s.len() == 0 {
        s
    } else if s.last() == '/' {
        Seq::empty()
    } else {
        filename_of(s.drop_last()).push(s.last())
    }
}

/// Whether `s` contains a `.`.
pub open spec fn has_dot(s: Seq<char>) -> bool
    decreases s.len(),
{
    if s.len() == 0 {
        false
    } else {
        s.last() == '.' || has_dot(s.drop_last())
    }
}

/// The prefix of `s` before its last `.`, or all of `s` when it has none.
pub open spec fn stem_of(s: Seq<char>) -> Seq<char>
    decreases s.len(),
{
    if s.len() == 0 {
        s
    } else if s.last() == '.' {
        s.drop_last()
    } else {
        stem_of(s.drop_last())
    }
}

/// The numeric value of a hexadecimal digit, or -1 for any other character.
pub open spec fn hex_val(c: char) -> int {
    if '0' <= c && c <= '9' {
        c as int - '0' as int
    } else if 'a' <= c && c <= 'f' {
        c as int - 'a' as int + 10
    } else if 'A' <= c && c <= 'F' {
        c as int - 'A' as int + 10
    } else {
        -1
    }
}

/// Whether position 0 of `s` starts an ASCII percent escape: a `%`, two hex
/// digits, and a value below 128.
pub open spec fn starts_escape(s: Seq<char>) -> bool {
    s.len() >= 3 && s[0] == '%' && hex_val(s[1]) >= 0 && hex_val(s[2]) >= 0 && hex_val(s[1]) * 16
        + hex_val(s[2]) < 0x80
}

/// `s` with every ASCII percent escape replaced by the character it encodes;
/// any other character, `%` included, is kept as it is.
pub open spec fn pct_decode(s: Seq<char>) -> Seq<char>
    decreases s.len(),
{
    if s.len() == 0 {
        Seq::empty()
    } else if starts_escape(s) {
        seq![(hex_val(s[1]) * 16 + hex_val(s[2])) as char] + pct_decode(s.skip(3))
    } else {
        seq![s[0]] + pct_decode(s.drop_first())
    }
}

/// The decoded file stem of a URL or path: the part after the last `/`,
/// without the extension, ASCII percent escapes decoded.
pub open spec fn decoded_stem_of(s: Seq<char>) -> Seq<char> {
    pct_decode(if has_dot(filename_of(s)) {
        stem_of(filename_of(s))
    } else {
        filename_of(s)
    })
}

/// The numeric value of a hexadecimal digit character, or -1.
fn hex_digit_val(c: char) -> (r: i32)
    ensures
        r as int == hex_val(c),
{
    if '0' <= c && c <= '9' {
        (c as u32 as i32) - ('0' as u32 as i32)
    } else if 'a' <= c && c <= 'f' {
        (c as u32 as i32) - ('a' as u32 as i32) + 10
    } else if 'A' <= c && c <= 'F' {
        (c as u32 as i32) - ('A' as u32 as i32) + 10
    } else {
        -1
    }
}

/// Computes the decoded file stem of a URL or path string.
pub fn decoded_stem(s: &str) -> (r: String)
    ensures
        r@ == decoded_stem_of(s@),
{
    let len = s.unicode_len();
    // Find the position right after the last '/'.
    let mut start: usize = 0;
    let mut saw_slash = false;
    let mut j: usize = len;
    while j > 0
        invariant
            j <= len,
            len == s@.len(),
            saw_slash ==> 0 < start <= len && s@[start - 1] == '/' && forall|k: int|
                start <= k < len ==> s@[k] != '/',
            !saw_slash ==> start == 0 && forall|k: int| j <= k < len ==> s@[k] != '/',
        decreases j,
    {
        if !saw_slash && s.get_char(j - 1) == '/' {
            saw_slash = true;
            start = j;
        }
        j = j - 1;
    }
    proof {
        lemma_filename_scan(s@, start as int);
    }
    // Find the last '.' at or after `start`.
    let mut dot: usize = 0;
    let mut saw_dot = false;
    let mut j: usize = len;
    while j > start
        invariant
            start <= j <= len,
            len == s@.len(),
            saw_dot ==> start <= dot < len && s@[dot as int] == '.' && forall|k: int|
                dot < k < len ==> s@[k] != '.',
            !saw_dot ==> forall|k: int| j <= k < len ==> s@[k] != '.',
        decreases j,
    {
        if !saw_dot && s.get_char(j - 1) == '.' {
            saw_dot = true;
            dot = j - 1;
        }
        j = j - 1;
    }
    let stem_end = if saw_dot {
        dot
    } else {
        len
    };
    let name = s.substring_char(start, stem_end);
    proof {
        let fname = s@.subrange(start as int, len as int);
        if saw_dot {
            lemma_has_dot_scan(fname, dot - start);
            lemma_stem_scan(fname, dot - start);
            assert(fname.subrange(0, dot - start) =~= s@.subrange(start as int, dot as int));
        } else {
            lemma_no_dot_scan(fname);
        }
    }
    // Decode ASCII percent escapes in the stem.
    let nlen = name.unicode_len();
    let mut out = String::new();
    let mut i: usize = 0;
    proof {
        assert(name@.skip(0) =~= name@);
    }
    while i < nlen
        invariant
            i <= nlen,
            nlen == name@.len(),
            pct_decode(name@) == out@ + pct_decode(name@.skip(i as int)),
        decreases nlen - i,
    {
        let c = name.get_char(i);
        let ghost rest = name@.skip(i as int);
        proof {
            assert(rest[0] == name@[i as int]);
        }
        if c == '%' && nlen - i > 2 {
            let h1 = hex_digit_val(name.get_char(i + 1));
            let h2 = hex_digit_val(name.get_char(i + 2));
            proof {
                assert(rest[1] == name@[i + 1]);
                assert(rest[2] == name@[i + 2]);
            }
            if h1 >= 0 && h2 >= 0 && h1 * 16 + h2 < 0x80 {
                assert(starts_escape(rest));
                let decoded: u8 = (h1 * 16 + h2) as u8;
                let dc = decoded as char;
                let ds = char_to_string(dc);
                out.append(ds.as_str());
                proof {
                    assert(rest.skip(3) =~= name@.skip(i + 3));
                }
                i = i + 3;
                continue;
            }
        }
        assert(!starts_escape(rest)) by {
            if starts_escape(rest) {
                assert(rest[1] == name@[i + 1]);
                assert(rest[2] == name@[i + 2]);
            }
        }
        let cs = char_to_string(c);
        out.append(cs.as_str());
        proof {
            assert(rest.drop_first() =~= name@.skip(i + 1));
        }
        i = i + 1;
    }
    proof {
        assert(name@.skip(nlen as int) =~= Seq::<char>::empty());
    }
    out
}

/// Relates a backwards scan for `/` to `filename_of`.
proof fn lemma_filename_scan(s: Seq<char>, start: int)
    requires
        0 <= start <= s.len(),
        forall|k: int| start <= k < s.len() ==> s[k] != '/',
        start > 0 ==> s[start - 1] == '/',
    ensures
        filename_of(s) == s.subrange(start, s.len() as int),
    decreases s.len(),
{
    if s.len() == 0 {
        assert(filename_of(s) =~= s.subrange(start, s.len() as int));
    } else if start == s.len() {
        assert(s.last() == '/');
        assert(filename_of(s) =~= s.subrange(start, s.len() as int));
    } else {
        assert(s.last() != '/');
        lemma_filename_scan(s.drop_last(), start);
        assert(s.drop_last().subrange(start, s.len() - 1) =~= s.subrange(start, s.len() - 1));
        assert(filename_of(s) =~= s.subrange(start, s.len() as int));
    }
}

/// A scan that found `.` at position `d` (and none later) witnesses `has_dot`.
proof fn lemma_has_dot_scan(s: Seq<char>, d: int)
    requires
        0 <= d < s.len(),
        s[d] == '.',
    ensures
        has_dot(s),
    decreases s.len(),
{
    if d < s.len() - 1 {
        lemma_has_dot_scan(s.drop_last(), d);
    }
}

/// With the last `.` at position `d`, `stem_of` is the prefix before it.
proof fn lemma_stem_scan(s: Seq<char>, d: int)
    requires
        0 <= d < s.len(),
        s[d] == '.',
        forall|k: int| d < k < s.len() ==> s[k] != '.',
    ensures
        stem_of(s) == s.subrange(0, d),
    decreases s.len(),
{
    if d == s.len() - 1 {
        assert(stem_of(s) =~= s.subrange(0, d));
    } else {
        lemma_stem_scan(s.drop_last(), d);
        assert(s.drop_last().subrange(0, d) =~= s.subrange(0, d));
    }
}

/// A scan that found no `.` anywhere refutes `has_dot`.
proof fn lemma_no_dot_scan(s: Seq<char>)
    requires
        forall|k: int| 0 <= k < s.len() ==> s[k] != '.',
    ensures
        !has_dot(s),
    decreases s.len(),
{
    if s.len() > 0 {
        lemma_no_dot_scan(s.drop_last());
    }
}

/// Whether the first string sorts strictly before the second.
pub fn str_lt(a: &str, b: &str) -> (r: bool)
    ensures
        r == seq_lt(a@, b@),
{
    str_cmp(a, b).0
}

/// Whether two string slices hold the same characters.
pub fn str_eq(a: &str, b: &str) -> (r: bool)
    ensures
        r == (a@ == b@),
{
    str_cmp(a, b).1
}

} // verus!
