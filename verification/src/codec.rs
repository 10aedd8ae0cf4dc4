//! The persisted catalog format: a JSON encoding of the ordered list of
//! profile records, written and parsed by verified code. Parsing an
//! encoded catalog gives back exactly the encoded tree.

use vstd::prelude::*;
use crate::mdx_profile::MdxProfile;
use crate::mdx_profile::ProfileView;
use crate::mdx_profile::profile_view;
use crate::mdx_profile::views_of_vec;
use crate::mdx_profile::lemma_views_of_vec;
use crate::text::char_to_string;
use crate::text::str_eq;
use crate::mdx_profile::MdxOptions;

verus! {

/// Whether a character is a decimal digit.
pub open spec fn is_digit(c: char) -> bool {
    '0' <= c && c <= '9'
}

/// The numeric value of a decimal digit character.
pub open spec fn digit_val(c: char) -> int {
    c as int - '0' as int
}

/// The character of one decimal digit.
pub open spec fn d_char(d: int) -> char {
    if d == 0 {
        '0'
    } else if d == 1 {
        '1'
    } else if d == 2 {
        '2'
    } else if d == 3 {
        '3'
    } else if d == 4 {
        '4'
    } else if d == 5 {
        '5'
    } else if d == 6 {
        '6'
    } else if d == 7 {
        '7'
    } else if d == 8 {
        '8'
    } else {
        '9'
    }
}

/// The string body escaping: `"` and `\` get a backslash, every other
/// character stands for itself.
pub open spec fn esc(s: Seq<char>) -> Seq<char>
    decreases s.len(),
{
    if s.len() == 0 {
        Seq::empty()
    } else if s[0] == '"' || s[0] == '\\' {
        seq!['\\', s[0]] + esc(s.drop_first())
    } else {
        seq![s[0]] + esc(s.drop_first())
    }
}

/// A quoted, escaped JSON string.
pub open spec fn enc_string(s: Seq<char>) -> Seq<char> {
    seq!['"'] + esc(s) + seq!['"']
}

/// The decimal digits of a non-negative integer.
pub open spec fn enc_nat(n: int) -> Seq<char>
    decreases n,
    when n >= 0
{
    if n < 10 {
        seq![d_char(n)]
    } else {
        enc_nat(n / 10).push(d_char(n % 10))
    }
}

/// A decimal integer, with a leading minus for negative values.
pub open spec fn enc_int(n: int) -> Seq<char> {
    if n < 0 {
        seq!['-'] + enc_nat(-n)
    } else {
        enc_nat(n)
    }
}

/// A JSON boolean.
pub open spec fn enc_bool(b: bool) -> Seq<char> {
    if b {
        "true"@
    } else {
        "false"@
    }
}

/// One encoded profile record.
pub open spec fn enc_profile(p: ProfileView) -> Seq<char>
    decreases p,
{
    "{\"title\":"@ + enc_string(p.title) + ",\"description\":"@ + enc_string(p.description)
        + ",\"url\":"@ + enc_string(p.url) + ",\"disabled\":"@ + enc_bool(p.disabled)
        + ",\"profileId\":"@ + enc_int(p.profile_id) + ",\"options\":{\"fontFilePath\":"@
        + enc_string(p.font_file_path) + "},\"profiles\":"@ + (match p.children {
        Option::Some(cs) => enc_profiles(cs),
        Option::None => "null"@,
    }) + ",\"asUnion\":"@ + enc_bool(p.as_union) + "}"@
}

/// An encoded profile array.
pub open spec fn enc_profiles(s: Seq<ProfileView>) -> Seq<char>
    decreases s,
{
    if s.len() == 0 {
        "[]"@
    } else {
        seq!['['] + enc_profile(s[0]) + enc_profiles_rest(s.drop_first()) + seq![']']
    }
}

/// The remaining elements of an encoded array, each with its leading
/// comma.
pub open spec fn enc_profiles_rest(s: Seq<ProfileView>) -> Seq<char>
    decreases s,
{
    if s.len() == 0 {
        Seq::empty()
    } else {
        seq![','] + enc_profile(s[0]) + enc_profiles_rest(s.drop_first())
    }
}

/// Parses a string body up to the closing quote; returns the decoded
/// characters and the rest of the input.
pub open spec fn p_string_body(s: Seq<char>) -> Option<(Seq<char>, Seq<char>)>
    decreases s.len(),
{
    if s.len() == 0 {
        Option::None
    } else if s[0] == '"' {
        Option::Some((Seq::empty(), s.drop_first()))
    } else if s[0] == '\\' {
        if s.len() >= 2 && (s[1] == '"' || s[1] == '\\') {
            match p_string_body(s.skip(2)) {
                Option::Some((v, r)) => Option::Some((seq![s[1]] + v, r)),
                Option::None => Option::None,
            }
        } else {
            Option::None
        }
    } else {
        match p_string_body(s.drop_first()) {
            Option::Some((v, r)) => Option::Some((seq![s[0]] + v, r)),
            Option::None => Option::None,
        }
    }
}

/// Parses a quoted string.
pub open spec fn p_string(s: Seq<char>) -> Option<(Seq<char>, Seq<char>)> {
    if s.len() > 0 && s[0] == '"' {
        p_string_body(s.drop_first())
    } else {
        Option::None
    }
}

/// Accumulates decimal digits; stops at the first non-digit. Fails on a
/// value beyond the 32-bit range.
pub open spec fn p_digits(s: Seq<char>, acc: int) -> Option<(int, Seq<char>)>
    decreases s.len(),
{
    if s.len() > 0 && is_digit(s[0]) {
        if acc * 10 + digit_val(s[0]) > 0x8000_0000 {
            Option::None
        } else {
            p_digits(s.drop_first(), acc * 10 + digit_val(s[0]))
        }
    } else {
        Option::Some((acc, s))
    }
}

/// Parses a 32-bit decimal integer with an optional leading minus.
pub open spec fn p_int(s: Seq<char>) -> Option<(int, Seq<char>)> {
    if s.len() >= 2 && s[0] == '-' && is_digit(s[1]) {
        match p_digits(s.drop_first(), 0) {
            Option::Some((v, r)) => Option::Some((-v, r)),
            Option::None => Option::None,
        }
    } else if s.len() >= 1 && is_digit(s[0]) {
        match p_digits(s, 0) {
            Option::Some((v, r)) => if v <= 0x7FFF_FFFF {
                Option::Some((v, r))
            } else {
                Option::None
            },
            Option::None => Option::None,
        }
    } else {
        Option::None
    }
}

/// Parses a JSON boolean.
pub open spec fn p_bool(s: Seq<char>) -> Option<(bool, Seq<char>)> {
    if s.len() >= 4 && s.take(4) == "true"@ {
        Option::Some((true, s.skip(4)))
    } else if s.len() >= 5 && s.take(5) == "false"@ {
        Option::Some((false, s.skip(5)))
    } else {
        Option::None
    }
}

/// Consumes an exact literal.
pub open spec fn p_lit(s: Seq<char>, lit: Seq<char>) -> Option<Seq<char>> {
    if s.len() >= lit.len() && s.take(lit.len() as int) == lit {
        Option::Some(s.skip(lit.len() as int))
    } else {
        Option::None
    }
}

/// Parses one profile record. `d` bounds the nesting depth.
pub open spec fn p_profile(s: Seq<char>, d: nat) -> Option<(ProfileView, Seq<char>)>
    decreases d,
{
    if d == 0 {
        Option::None
    } else {
        match p_lit(s, "{\"title\":"@) {
            Option::None => Option::None,
            Option::Some(s1) => match p_string(s1) {
                Option::None => Option::None,
                Option::Some((title, s2)) => match p_lit(s2, ",\"description\":"@) {
                    Option::None => Option::None,
                    Option::Some(s3) => match p_string(s3) {
                        Option::None => Option::None,
                        Option::Some((description, s4)) => match p_lit(s4, ",\"url\":"@) {
                            Option::None => Option::None,
                            Option::Some(s5) => match p_string(s5) {
                                Option::None => Option::None,
                                Option::Some((url, s6)) => match p_lit(s6, ",\"disabled\":"@) {
                                    Option::None => Option::None,
                                    Option::Some(s7) => match p_bool(s7) {
                                        Option::None => Option::None,
                                        Option::Some((disabled, s8)) => match p_lit(
                                            s8,
                                            ",\"profileId\":"@,
                                        ) {
                                            Option::None => Option::None,
                                            Option::Some(s9) => match p_int(s9) {
                                                Option::None => Option::None,
                                                Option::Some((profile_id, s10)) => match p_lit(
                                                    s10,
                                                    ",\"options\":{\"fontFilePath\":"@,
                                                ) {
                                                    Option::None => Option::None,
                                                    Option::Some(s11) => match p_string(s11) {
                                                        Option::None => Option::None,
                                                        Option::Some((font, s12)) => match p_lit(
                                                            s12,
                                                            "},\"profiles\":"@,
                                                        ) {
                                                            Option::None => Option::None,
                                                            Option::Some(s13) => match p_children(
                                                                s13,
                                                                (d - 1) as nat,
                                                            ) {
                                                                Option::None => Option::None,
                                                                Option::Some((children, s14)) => match p_lit(
                                                                    s14,
                                                                    ",\"asUnion\":"@,
                                                                ) {
                                                                    Option::None => Option::None,
                                                                    Option::Some(s15) => match p_bool(
                                                                        s15,
                                                                    ) {
                                                                        Option::None => Option::None,
                                                                        Option::Some(
                                                                            (as_union, s16),
                                                                        ) => match p_lit(
                                                                            s16,
                                                                            "}"@,
                                                                        ) {
                                                                            Option::None => Option::None,
                                                                            Option::Some(s17) => Option::Some(
                                                                                (
                                                                                    ProfileView {
                                                                                        title,
                                                                                        description,
                                                                                        url,
                                                                                        disabled,
                                                                                        profile_id,
                                                                                        font_file_path:
                                                                                            font,
                                                                                        children,
                                                                                        as_union,
                                                                                    },
                                                                                    s17,
                                                                                ),
                                                                            ),
                                                                        },
                                                                    },
                                                                },
                                                            },
                                                        },
                                                    },
                                                },
                                            },
                                        },
                                    },
                                },
                            },
                        },
                    },
                },
            },
        }
    }
}

/// Parses the `profiles` field: `null` or a profile array.
pub open spec fn p_children(s: Seq<char>, d: nat) -> Option<
    (Option<Seq<ProfileView>>, Seq<char>),
>
    decreases d,
{
    if d == 0 {
        Option::None
    } else {
        match p_lit(s, "null"@) {
            Option::Some(r) => Option::Some((Option::None, r)),
            Option::None => match p_profiles(s, (d - 1) as nat) {
                Option::Some((vs, r)) => Option::Some((Option::Some(vs), r)),
                Option::None => Option::None,
            },
        }
    }
}

/// Parses a profile array.
pub open spec fn p_profiles(s: Seq<char>, d: nat) -> Option<(Seq<ProfileView>, Seq<char>)>
    decreases d,
{
    if d == 0 {
        Option::None
    } else {
        match p_lit(s, "[]"@) {
            Option::Some(r) => Option::Some((Seq::empty(), r)),
            Option::None => match p_lit(s, "["@) {
                Option::None => Option::None,
                Option::Some(s1) => match p_profile(s1, (d - 1) as nat) {
                    Option::None => Option::None,
                    Option::Some((p0, s2)) => match p_profiles_rest(s2, (d - 1) as nat) {
                        Option::None => Option::None,
                        Option::Some((ps, s3)) => match p_lit(s3, "]"@) {
                            Option::None => Option::None,
                            Option::Some(s4) => Option::Some((seq![p0] + ps, s4)),
                        },
                    },
                },
            },
        }
    }
}

/// Parses the comma-led remainder of a profile array, up to but not
/// including the closing bracket.
pub open spec fn p_profiles_rest(s: Seq<char>, d: nat) -> Option<(Seq<ProfileView>, Seq<char>)>
    decreases d,
{
    if d == 0 {
        Option::None
    } else {
        match p_lit(s, ","@) {
            Option::None => Option::Some((Seq::empty(), s)),
            Option::Some(s1) => match p_profile(s1, (d - 1) as nat) {
                Option::None => Option::None,
                Option::Some((p0, s2)) => match p_profiles_rest(s2, (d - 1) as nat) {
                    Option::Some((ps, s3)) => Option::Some((seq![p0] + ps, s3)),
                    Option::None => Option::None,
                },
            },
        }
    }
}

/// The whole-catalog parse: a profile array consuming the entire input.
pub open spec fn parse_catalog(s: Seq<char>) -> Option<Seq<ProfileView>> {
    match p_profiles(s, s.len() + 1) {
        Option::Some((vs, rest)) => if rest.len() == 0 {
            Option::Some(vs)
        } else {
            Option::None
        },
        Option::None => Option::None,
    }
}


/// Parsing an exact literal prefix consumes exactly it.
proof fn lemma_p_lit(lit: Seq<char>, rest: Seq<char>)
    ensures
        p_lit(lit + rest, lit) == Option::Some(rest),
{
    assert((lit + rest).take(lit.len() as int) =~= lit);
    assert((lit + rest).skip(lit.len() as int) =~= rest);
}

/// Parsing an escaped string body gives back the original characters.
proof fn lemma_p_string_body(v: Seq<char>, rest: Seq<char>)
    ensures
        p_string_body(esc(v) + (seq!['"'] + rest)) == Option::Some((v, rest)),
    decreases v.len(),
{
    let s = esc(v) + (seq!['"'] + rest);
    if v.len() == 0 {
        assert(esc(v) =~= Seq::<char>::empty());
        assert(s[0] == '"');
        assert(s.drop_first() =~= rest);
    } else if v[0] == '"' || v[0] == '\\' {
        assert(s[0] == '\\');
        assert(s[1] == v[0]);
        assert(s.len() >= 2);
        lemma_p_string_body(v.drop_first(), rest);
        assert(s.skip(2) =~= esc(v.drop_first()) + (seq!['"'] + rest));
        assert(seq![v[0]] + v.drop_first() =~= v);
    } else {
        assert(s[0] == v[0]);
        assert(s[0] != '"' && s[0] != '\\');
        lemma_p_string_body(v.drop_first(), rest);
        assert(s.drop_first() =~= esc(v.drop_first()) + (seq!['"'] + rest));
        assert(seq![v[0]] + v.drop_first() =~= v);
    }
}

/// Parsing an encoded string gives back the original characters.
proof fn lemma_p_string(v: Seq<char>, rest: Seq<char>)
    ensures
        p_string(enc_string(v) + rest) == Option::Some((v, rest)),
{
    let s = enc_string(v) + rest;
    assert(s[0] == '"');
    assert(s.len() > 0);
    lemma_p_string_body(v, rest);
    assert(s.drop_first() =~= esc(v) + (seq!['"'] + rest));
}

/// Every character of an encoded non-negative number is a digit, and its
/// digits denote it: the decimal scale of the number.
pub open spec fn shift(n: int) -> int
    decreases n,
    when n >= 0
{
    if n < 10 {
        10
    } else {
        10 * shift(n / 10)
    }
}

/// Digit characters are digits with the right value.
proof fn lemma_d_char(d: int)
    requires
        0 <= d <= 9,
    ensures
        is_digit(d_char(d)),
        digit_val(d_char(d)) == d,
{
}

/// The encoding of a non-negative number is all digits.
proof fn lemma_enc_nat_digits(n: int)
    requires
        n >= 0,
    ensures
        enc_nat(n).len() >= 1,
        forall|i: int| 0 <= i < enc_nat(n).len() ==> is_digit(#[trigger] enc_nat(n)[i]),
    decreases n,
{
    if n < 10 {
        lemma_d_char(n);
    } else {
        lemma_enc_nat_digits(n / 10);
        lemma_d_char(n % 10);
        assert forall|i: int| 0 <= i < enc_nat(n).len() implies is_digit(
            #[trigger] enc_nat(n)[i],
        ) by {
            if i < enc_nat(n / 10).len() {
                assert(enc_nat(n)[i] == enc_nat(n / 10)[i]);
            } else {
                assert(enc_nat(n)[i] == d_char(n % 10));
            }
        }
    }
}

/// Accumulating the digits of an encoded number continues with the
/// combined value.
proof fn lemma_p_digits(n: int, rest: Seq<char>, acc: int)
    requires
        n >= 0,
        acc >= 0,
        acc * shift(n) + n <= 0x8000_0000,
    ensures
        p_digits(enc_nat(n) + rest, acc) == p_digits(rest, acc * shift(n) + n),
    decreases n,
{
    let s = enc_nat(n) + rest;
    if n < 10 {
        lemma_d_char(n);
        assert(s[0] == d_char(n));
        assert(s.drop_first() =~= rest);
        assert(acc * 10 + n <= 0x8000_0000);
    } else {
        lemma_enc_nat_digits(n / 10);
        assert(0 <= n % 10 <= 9);
        lemma_d_char(n % 10);
        let mid = seq![d_char(n % 10)] + rest;
        assert(s =~= enc_nat(n / 10) + mid);
        assert(shift(n / 10) >= 10 && shift(n) == 10 * shift(n / 10)) by {
            lemma_shift_pos(n / 10);
        }
        assert((acc * shift(n / 10) + n / 10) * 10 + n % 10 == acc * shift(n) + n)
            by (nonlinear_arith)
            requires
                n >= 10,
                shift(n) == 10 * shift(n / 10),
                n == (n / 10) * 10 + n % 10,
        {}
        assert(acc * shift(n / 10) + n / 10 <= 0x8000_0000) by (nonlinear_arith)
            requires
                (acc * shift(n / 10) + n / 10) * 10 + n % 10 == acc * shift(n) + n,
                acc * shift(n) + n <= 0x8000_0000,
                acc >= 0,
                n >= 10,
                n % 10 >= 0,
                shift(n / 10) >= 10,
                acc * shift(n / 10) + n / 10 >= 0,
        {}
        assert(acc * shift(n / 10) + n / 10 >= 0) by (nonlinear_arith)
            requires
                acc >= 0,
                n >= 10,
                shift(n / 10) >= 10,
        {}
        lemma_p_digits(n / 10, mid, acc);
        let acc2 = acc * shift(n / 10) + n / 10;
        assert(p_digits(mid, acc2) == p_digits(rest, acc2 * 10 + n % 10)) by {
            assert(mid[0] == d_char(n % 10));
            assert(mid.drop_first() =~= rest);
            assert(acc2 * 10 + digit_val(d_char(n % 10)) == acc * shift(n) + n);
        }
    }
}

/// `shift` is at least 10.
proof fn lemma_shift_pos(n: int)
    requires
        n >= 0,
    ensures
        shift(n) >= 10,
    decreases n,
{
    if n >= 10 {
        lemma_shift_pos(n / 10);
    }
}

/// Parsing an encoded 32-bit integer gives back the value, provided the
/// following character is not a digit.
proof fn lemma_p_int(n: int, rest: Seq<char>)
    requires
        -0x8000_0000 <= n <= 0x7FFF_FFFF,
        rest.len() > 0 ==> !is_digit(rest[0]),
    ensures
        p_int(enc_int(n) + rest) == Option::Some((n, rest)),
{
    if n >= 0 {
        let s = enc_nat(n) + rest;
        lemma_enc_nat_digits(n);
        assert(s[0] == enc_nat(n)[0]);
        assert(is_digit(s[0]));
        assert(s[0] != '-');
        lemma_shift_pos(n);
        assert(0 * shift(n) + n <= 0x8000_0000) by (nonlinear_arith)
            requires
                n <= 0x7FFF_FFFF,
        {}
        lemma_p_digits(n, rest, 0);
        assert(0 * shift(n) + n == n) by (nonlinear_arith) {}
        assert(p_digits(rest, n) == Option::Some((n, rest)));
        assert(enc_int(n) =~= enc_nat(n));
    } else {
        let m = -n;
        let s = enc_int(n) + rest;
        lemma_enc_nat_digits(m);
        assert(s[0] == '-');
        assert(s[1] == enc_nat(m)[0]) by {
            assert(enc_int(n)[1] == enc_nat(m)[0]);
        }
        assert(is_digit(s[1]));
        assert(s.drop_first() =~= enc_nat(m) + rest);
        lemma_shift_pos(m);
        assert(0 * shift(m) + m <= 0x8000_0000) by (nonlinear_arith)
            requires
                m <= 0x8000_0000,
        {}
        lemma_p_digits(m, rest, 0);
        assert(0 * shift(m) + m == m) by (nonlinear_arith) {}
        assert(p_digits(rest, m) == Option::Some((m, rest)));
    }
}

/// Parsing an encoded boolean gives it back.
proof fn lemma_p_bool(b: bool, rest: Seq<char>)
    ensures
        p_bool(enc_bool(b) + rest) == Option::Some((b, rest)),
{
    reveal_strlit("true");
    reveal_strlit("false");
    let s = enc_bool(b) + rest;
    if b {
        assert(s.take(4) =~= "true"@);
        assert(s.skip(4) =~= rest);
    } else {
        assert(s.take(5) =~= "false"@);
        assert(s.skip(5) =~= rest);
        if s.len() >= 4 {
            assert(s.take(4)[0] == 'f');
            assert(s.take(4) != "true"@) by {
                assert("true"@[0] == 't');
            }
        }
    }
}


/// The parse depth one profile record needs.
pub open spec fn dp(p: ProfileView) -> nat
    decreases p,
{
    1 + (match p.children {
        Option::Some(cs) => 1 + dl(cs),
        Option::None => 1nat,
    })
}

/// The parse depth a profile array needs.
pub open spec fn dl(s: Seq<ProfileView>) -> nat
    decreases s,
{
    if s.len() == 0 {
        1
    } else {
        let a = dp(s[0]);
        let b = dr(s.drop_first());
        1 + (if a > b {
            a
        } else {
            b
        })
    }
}

/// The parse depth the remainder of a profile array needs.
pub open spec fn dr(s: Seq<ProfileView>) -> nat
    decreases s,
{
    if s.len() == 0 {
        1
    } else {
        let a = dp(s[0]);
        let b = dr(s.drop_first());
        1 + (if a > b {
            a
        } else {
            b
        })
    }
}

/// Whether every id in the subtree fits the 32-bit range the format
/// carries.
pub open spec fn ids_ok_p(p: ProfileView) -> bool
    decreases p,
{
    -0x8000_0000 <= p.profile_id <= 0x7FFF_FFFF && (match p.children {
        Option::Some(cs) => ids_ok_l(cs),
        Option::None => true,
    })
}

/// Whether every id anywhere in the list fits the 32-bit range.
pub open spec fn ids_ok_l(s: Seq<ProfileView>) -> bool
    decreases s,
{
    if s.len() == 0 {
        true
    } else {
        ids_ok_p(s[0]) && ids_ok_l(s.drop_first())
    }
}

/// An encoded profile starts with an opening brace.
proof fn lemma_enc_profile_head(p: ProfileView)
    ensures
        enc_profile(p).len() > 0,
        enc_profile(p)[0] == '{',
{
    reveal_strlit("{\"title\":");
    assert(enc_profile(p)[0] == "{\"title\":"@[0]);
}

/// Concatenation of character sequences is associative.
proof fn lemma_assoc(a: Seq<char>, b: Seq<char>, c: Seq<char>)
    ensures
        (a + b) + c == a + (b + c),
{
    assert((a + b) + c =~= a + (b + c));
}

/// Parsing an encoded profile record gives it back.
#[verifier::rlimit(100)]
proof fn lemma_p_profile(p: ProfileView, rest: Seq<char>, d: nat)
    requires
        d >= dp(p),
        ids_ok_p(p),
    ensures
        p_profile(enc_profile(p) + rest, d) == Option::Some((p, rest)),
    decreases p,
{
    reveal_strlit("{\"title\":");
    reveal_strlit(",\"description\":");
    reveal_strlit(",\"url\":");
    reveal_strlit(",\"disabled\":");
    reveal_strlit(",\"profileId\":");
    reveal_strlit(",\"options\":{\"fontFilePath\":");
    reveal_strlit("},\"profiles\":");
    reveal_strlit(",\"asUnion\":");
    reveal_strlit("}");
    reveal_strlit("null");
    let s = enc_profile(p) + rest;
    let a1 = "{\"title\":"@;
    let a2 = enc_string(p.title);
    let a3 = ",\"description\":"@;
    let a4 = enc_string(p.description);
    let a5 = ",\"url\":"@;
    let a6 = enc_string(p.url);
    let a7 = ",\"disabled\":"@;
    let a8 = enc_bool(p.disabled);
    let a9 = ",\"profileId\":"@;
    let a10 = enc_int(p.profile_id);
    let a11 = ",\"options\":{\"fontFilePath\":"@;
    let a12 = enc_string(p.font_file_path);
    let a13 = "},\"profiles\":"@;
    let a14 = match p.children {
        Option::Some(cs) => enc_profiles(cs),
        Option::None => "null"@,
    };
    let a15 = ",\"asUnion\":"@;
    let a16 = enc_bool(p.as_union);
    let a17 = "}"@;
    let l2 = a1 + a2;
    let l3 = l2 + a3;
    let l4 = l3 + a4;
    let l5 = l4 + a5;
    let l6 = l5 + a6;
    let l7 = l6 + a7;
    let l8 = l7 + a8;
    let l9 = l8 + a9;
    let l10 = l9 + a10;
    let l11 = l10 + a11;
    let l12 = l11 + a12;
    let l13 = l12 + a13;
    let l14 = l13 + a14;
    let l15 = l14 + a15;
    let l16 = l15 + a16;
    let l17 = l16 + a17;
    assert(enc_profile(p) == l17);
    let t16 = a17 + rest;
    let t15 = a16 + t16;
    let t14 = a15 + t15;
    let t13 = a14 + t14;
    let t12 = a13 + t13;
    let t11 = a12 + t12;
    let t10 = a11 + t11;
    let t9 = a10 + t10;
    let t8 = a9 + t9;
    let t7 = a8 + t8;
    let t6 = a7 + t7;
    let t5 = a6 + t6;
    let t4 = a5 + t5;
    let t3 = a4 + t4;
    let t2 = a3 + t3;
    let t1 = a2 + t2;
    lemma_assoc(l16, a17, rest);
    lemma_assoc(l15, a16, t16);
    lemma_assoc(l14, a15, t15);
    lemma_assoc(l13, a14, t14);
    lemma_assoc(l12, a13, t13);
    lemma_assoc(l11, a12, t12);
    lemma_assoc(l10, a11, t11);
    lemma_assoc(l9, a10, t10);
    lemma_assoc(l8, a9, t9);
    lemma_assoc(l7, a8, t8);
    lemma_assoc(l6, a7, t7);
    lemma_assoc(l5, a6, t6);
    lemma_assoc(l4, a5, t5);
    lemma_assoc(l3, a4, t4);
    lemma_assoc(l2, a3, t3);
    lemma_assoc(a1, a2, t2);
    assert(s == a1 + t1);
    lemma_p_lit(a1, t1);
    lemma_p_string(p.title, t2);
    lemma_p_lit(a3, t3);
    lemma_p_string(p.description, t4);
    lemma_p_lit(a5, t5);
    lemma_p_string(p.url, t6);
    lemma_p_lit(a7, t7);
    lemma_p_bool(p.disabled, t8);
    lemma_p_lit(a9, t9);
    assert(t10.len() > 0 && !is_digit(t10[0])) by {
        assert(t10[0] == ',');
    }
    lemma_p_int(p.profile_id, t10);
    lemma_p_lit(a11, t11);
    lemma_p_string(p.font_file_path, t12);
    lemma_p_lit(a13, t13);
    // The children field.
    assert(p_children(t13, (d - 1) as nat) == Option::Some((p.children, t14))) by {
        match p.children {
            Option::None => {
                lemma_p_lit("null"@, t14);
            },
            Option::Some(cs) => {
                // `null` cannot match an array.
                assert(p_lit(t13, "null"@) is None) by {
                    reveal_strlit("[]");
                    assert(enc_profiles(cs).len() > 0 && enc_profiles(cs)[0] == '[') by {
                        if cs.len() > 0 {
                            let w1 = seq!['['] + enc_profile(cs[0]);
                            let w2 = w1 + enc_profiles_rest(cs.drop_first());
                            let w3 = w2 + seq![']'];
                            assert(enc_profiles(cs) == w3);
                            assert(w1[0] == '[');
                            assert(w2[0] == '[');
                            assert(w3[0] == '[');
                        }
                    }
                    assert(t13[0] == '[');
                    if t13.len() >= 4 {
                        assert(t13.take(4) != "null"@) by {
                            assert(t13.take(4)[0] == '[');
                            assert("null"@[0] == 'n');
                        }
                    }
                }
                lemma_p_profiles(cs, t14, (d - 2) as nat);
            },
        }
    }
    lemma_p_lit(a15, t15);
    lemma_p_bool(p.as_union, t16);
    lemma_p_lit(a17, rest);
}

/// Parsing an encoded profile array gives it back.
#[verifier::rlimit(100)]
proof fn lemma_p_profiles(s: Seq<ProfileView>, rest: Seq<char>, d: nat)
    requires
        d >= dl(s),
        ids_ok_l(s),
    ensures
        p_profiles(enc_profiles(s) + rest, d) == Option::Some((s, rest)),
    decreases s,
{
    reveal_strlit("[]");
    reveal_strlit("[");
    reveal_strlit("]");
    let t = enc_profiles(s) + rest;
    if s.len() == 0 {
        assert(t =~= "[]"@ + rest);
        lemma_p_lit("[]"@, rest);
    } else {
        let t3 = "]"@ + rest;
        let t2 = enc_profiles_rest(s.drop_first()) + t3;
        let t1 = enc_profile(s[0]) + t2;
        assert(t =~= "["@ + t1);
        assert(p_lit(t, "[]"@) is None) by {
            lemma_enc_profile_head(s[0]);
            if t.len() >= 2 {
                assert(t[1] == '{');
                assert(t.take(2) != "[]"@) by {
                    assert(t.take(2)[1] == '{');
                    assert("[]"@[1] == ']');
                }
            }
        }
        lemma_p_lit("["@, t1);
        lemma_p_profile(s[0], t2, (d - 1) as nat);
        lemma_p_profiles_rest(s.drop_first(), t3, (d - 1) as nat);
        assert(t3 =~= "]"@ + rest);
        lemma_p_lit("]"@, rest);
        assert(seq![s[0]] + s.drop_first() =~= s);
    }
}

/// Parsing the encoded remainder of a profile array gives it back,
/// stopping at the closing bracket.
#[verifier::rlimit(100)]
proof fn lemma_p_profiles_rest(s: Seq<ProfileView>, rest: Seq<char>, d: nat)
    requires
        d >= dr(s),
        ids_ok_l(s),
        rest.len() > 0 && rest[0] == ']',
    ensures
        p_profiles_rest(enc_profiles_rest(s) + rest, d) == Option::Some((s, rest)),
    decreases s,
{
    reveal_strlit(",");
    reveal_strlit("]");
    let t = enc_profiles_rest(s) + rest;
    if s.len() == 0 {
        assert(t =~= rest);
        assert(p_lit(t, ","@) is None) by {
            if t.len() >= 1 {
                assert(t.take(1)[0] == ']');
                assert(","@[0] == ',');
                assert(t.take(1) != ","@);
            }
        }
    } else {
        let t2 = enc_profiles_rest(s.drop_first()) + rest;
        let t1 = enc_profile(s[0]) + t2;
        assert(t =~= ","@ + t1);
        assert(t[0] == ',');
        lemma_p_lit(","@, t1);
        lemma_p_profile(s[0], t2, (d - 1) as nat);
        lemma_p_profiles_rest(s.drop_first(), rest, (d - 1) as nat);
        assert(seq![s[0]] + s.drop_first() =~= s);
    }
}


/// The needed parse depth is bounded by the encoding's length.
proof fn lemma_dp_le(p: ProfileView)
    ensures
        dp(p) <= enc_profile(p).len(),
        enc_profile(p).len() >= 9,
    decreases p,
{
    reveal_strlit("{\"title\":");
    reveal_strlit("null");
    let e = enc_profile(p);
    assert(e.len() == "{\"title\":"@.len() + enc_string(p.title).len() + ",\"description\":"@.len()
        + enc_string(p.description).len() + ",\"url\":"@.len() + enc_string(p.url).len()
        + ",\"disabled\":"@.len() + enc_bool(p.disabled).len() + ",\"profileId\":"@.len()
        + enc_int(p.profile_id).len() + ",\"options\":{\"fontFilePath\":"@.len() + enc_string(
        p.font_file_path,
    ).len() + "},\"profiles\":"@.len() + (match p.children {
        Option::Some(cs) => enc_profiles(cs),
        Option::None => "null"@,
    }).len() + ",\"asUnion\":"@.len() + enc_bool(p.as_union).len() + "}"@.len());
    match p.children {
        Option::Some(cs) => {
            lemma_dl_le(cs);
        },
        Option::None => (),
    }
}

/// The needed parse depth of an array is bounded by its encoding's
/// length.
proof fn lemma_dl_le(s: Seq<ProfileView>)
    ensures
        dl(s) <= enc_profiles(s).len(),
        enc_profiles(s).len() >= 2,
    decreases s,
{
    reveal_strlit("[]");
    if s.len() > 0 {
        lemma_dp_le(s[0]);
        lemma_dr_le(s.drop_first());
        assert(enc_profiles(s).len() == 1 + enc_profile(s[0]).len() + enc_profiles_rest(
            s.drop_first(),
        ).len() + 1);
    }
}

/// The needed parse depth of an array remainder is bounded by its
/// encoding's length plus one.
proof fn lemma_dr_le(s: Seq<ProfileView>)
    ensures
        dr(s) <= enc_profiles_rest(s).len() + 1,
    decreases s,
{
    if s.len() > 0 {
        lemma_dp_le(s[0]);
        lemma_dr_le(s.drop_first());
        assert(enc_profiles_rest(s).len() == 1 + enc_profile(s[0]).len() + enc_profiles_rest(
            s.drop_first(),
        ).len());
    }
}

/// Parsing an encoded catalog gives back exactly the encoded tree: the
/// serialize/deserialize round trip is the identity, for every tree
/// whose ids fit the 32-bit format.
pub proof fn lemma_catalog_round_trip(gs: Seq<ProfileView>)
    requires
        ids_ok_l(gs),
    ensures
        parse_catalog(enc_profiles(gs)) == Option::Some(gs),
{
    let e = enc_profiles(gs);
    lemma_dl_le(gs);
    assert(e + Seq::<char>::empty() =~= e);
    lemma_p_profiles(gs, Seq::empty(), e.len() + 1);
}


/// The string for one decimal digit.
fn d_char_str(d: u64) -> (r: &'static str)
    requires
        d <= 9,
    ensures
        r@ == seq![d_char(d as int)],
{
    proof {
        reveal_strlit("0");
        reveal_strlit("1");
        reveal_strlit("2");
        reveal_strlit("3");
        reveal_strlit("4");
        reveal_strlit("5");
        reveal_strlit("6");
        reveal_strlit("7");
        reveal_strlit("8");
        reveal_strlit("9");
    }
    if d == 0 {
        "0"
    } else if d == 1 {
        "1"
    } else if d == 2 {
        "2"
    } else if d == 3 {
        "3"
    } else if d == 4 {
        "4"
    } else if d == 5 {
        "5"
    } else if d == 6 {
        "6"
    } else if d == 7 {
        "7"
    } else if d == 8 {
        "8"
    } else {
        "9"
    }
}

/// Writes the decimal digits of a non-negative number.
fn enc_nat_str(n: u64) -> (r: String)
    ensures
        r@ == enc_nat(n as int),
    decreases n,
{
    if n < 10 {
        String::from_str(d_char_str(n))
    } else {
        let mut out = enc_nat_str(n / 10);
        out.append(d_char_str(n % 10));
        out
    }
}

/// Writes a decimal 32-bit integer.
fn enc_int_str(n: i32) -> (r: String)
    ensures
        r@ == enc_int(n as int),
{
    proof {
        reveal_strlit("-");
    }
    if n < 0 {
        let m: u64 = (-(n as i64)) as u64;
        let mut out = String::from_str("-");
        let digits = enc_nat_str(m);
        out.append(digits.as_str());
        proof {
            assert(out@ =~= seq!['-'] + enc_nat(m as int));
        }
        out
    } else {
        enc_nat_str(n as u64)
    }
}

/// Writes a JSON boolean.
fn enc_bool_str(b: bool) -> (r: &'static str)
    ensures
        r@ == enc_bool(b),
{
    if b {
        "true"
    } else {
        "false"
    }
}

/// Writes a quoted, escaped JSON string.
fn enc_string_str(s: &str) -> (r: String)
    ensures
        r@ == enc_string(s@),
{
    proof {
        reveal_strlit("\"");
        reveal_strlit("\\\"");
        reveal_strlit("\\\\");
    }
    let len = s.unicode_len();
    let mut out = String::from_str("\"");
    let mut i: usize = 0;
    proof {
        assert(s@.skip(0) =~= s@);
        assert(out@ =~= seq!['"']);
    }
    while i < len
        invariant
            i <= len,
            len == s@.len(),
            seq!['"'] + esc(s@) == out@ + esc(s@.skip(i as int)),
        decreases len - i,
    {
        let ghost rest = s@.skip(i as int);
        let ghost out0 = out@;
        let c = s.get_char(i);
        proof {
            reveal_strlit("\\\"");
            reveal_strlit("\\\\");
            assert(rest[0] == s@[i as int]);
            assert(rest.drop_first() =~= s@.skip(i + 1));
        }
        if c == '"' {
            out.append("\\\"");
        } else if c == '\\' {
            out.append("\\\\");
        } else {
            let cs = char_to_string(c);
            out.append(cs.as_str());
        }
        proof {
            assert(out0 + esc(rest) =~= out@ + esc(s@.skip(i + 1)));
        }
        i = i + 1;
    }
    proof {
        assert(s@.skip(len as int) =~= Seq::<char>::empty());
    }
    out.append("\"");
    proof {
        assert(out@ =~= enc_string(s@));
    }
    out
}

/// Writes one encoded profile record.
fn enc_profile_str(p: &MdxProfile) -> (r: String)
    ensures
        r@ == enc_profile(p@),
    decreases *p,
{
    let mut out = String::from_str("{\"title\":");
    proof {
        reveal_strlit("{\"title\":");
        reveal_strlit(",\"description\":");
        reveal_strlit(",\"url\":");
        reveal_strlit(",\"disabled\":");
        reveal_strlit(",\"profileId\":");
        reveal_strlit(",\"options\":{\"fontFilePath\":");
        reveal_strlit("},\"profiles\":");
        reveal_strlit(",\"asUnion\":");
        reveal_strlit("}");
        reveal_strlit("null");
    }
    let t = enc_string_str(p.title.as_str());
    out.append(t.as_str());
    out.append(",\"description\":");
    let de = enc_string_str(p.description.as_str());
    out.append(de.as_str());
    out.append(",\"url\":");
    let u = enc_string_str(p.url.as_str());
    out.append(u.as_str());
    out.append(",\"disabled\":");
    out.append(enc_bool_str(p.disabled));
    out.append(",\"profileId\":");
    let pid = enc_int_str(p.profile_id);
    out.append(pid.as_str());
    out.append(",\"options\":{\"fontFilePath\":");
    let f = enc_string_str(p.options.font_file_path.as_str());
    out.append(f.as_str());
    out.append("},\"profiles\":");
    match &p.profiles {
        Option::None => {
            out.append("null");
        },
        Option::Some(v) => {
            proof {
                assert(decreases_to!(*p => p.profiles));
                assert(decreases_to!(p.profiles => p.profiles->Some_0));
                assert(p.profiles->Some_0 == *v);
                assert(decreases_to!(*v => v@));
            }
            let cs = enc_profiles_str(v);
            out.append(cs.as_str());
        },
    }
    out.append(",\"asUnion\":");
    out.append(enc_bool_str(p.as_union));
    out.append("}");
    out
}

/// Writes an encoded profile array.
fn enc_profiles_str(v: &Vec<MdxProfile>) -> (r: String)
    ensures
        r@ == enc_profiles(views_of_vec(v@)),
    decreases v@,
{
    proof {
        reveal_strlit("[]");
        reveal_strlit("[");
        reveal_strlit(",");
        reveal_strlit("]");
        lemma_views_of_vec(v@);
    }
    let ghost cs = views_of_vec(v@);
    if v.len() == 0 {
        return String::from_str("[]");
    }
    let mut out = String::from_str("[");
    proof {
        assert(decreases_to!(v@ => v@[0]));
    }
    let e0 = enc_profile_str(&v[0]);
    out.append(e0.as_str());
    let mut i: usize = 1;
    proof {
        assert(cs.skip(1).skip(0) =~= cs.skip(1));
        assert(out@ =~= seq!['['] + enc_profile(cs[0]));
    }
    while i < v.len()
        invariant
            1 <= i <= v@.len(),
            cs == views_of_vec(v@),
            cs.len() == v@.len(),
            forall|x: int| 0 <= x < v@.len() ==> cs[x] == profile_view(v@[x]),
            out@ + enc_profiles_rest(cs.drop_first().skip(i - 1)) + seq![']'] == seq!['[']
                + enc_profile(cs[0]) + enc_profiles_rest(cs.drop_first()) + seq![']'],
        decreases v@.len() - i,
    {
        let ghost rem = cs.drop_first().skip(i - 1);
        let ghost out0 = out@;
        proof {
            reveal_strlit(",");
            assert(rem[0] == cs[i as int]);
            assert(rem.drop_first() =~= cs.drop_first().skip(i as int));
            assert(decreases_to!(v@ => v@[i as int]));
        }
        out.append(",");
        let e = enc_profile_str(&v[i]);
        out.append(e.as_str());
        proof {
            assert(out0 + enc_profiles_rest(rem) + seq![']'] =~= out@ + enc_profiles_rest(
                cs.drop_first().skip(i as int),
            ) + seq![']']);
        }
        i = i + 1;
    }
    proof {
        assert(cs.drop_first().skip(v@.len() - 1) =~= Seq::<ProfileView>::empty());
    }
    out.append("]");
    proof {
        assert(out@ =~= enc_profiles(cs));
    }
    out
}

/// Serializes a catalog: the ordered list of top-level groups.
pub fn catalog_to_json(groups: &Vec<MdxProfile>) -> (r: String)
    ensures
        r@ == enc_profiles(views_of_vec(groups@)),
{
    enc_profiles_str(groups)
}


/// Parses a string body from `pos`, mirroring `p_string_body`.
fn parse_string_body(s: &str, pos: usize) -> (r: Option<(String, usize)>)
    requires
        pos <= s@.len(),
    ensures
        match r {
            Option::Some((v, p2)) => pos < p2 <= s@.len() && p_string_body(s@.skip(pos as int))
                == Option::Some((v@, s@.skip(p2 as int))),
            Option::None => p_string_body(s@.skip(pos as int)) is None,
        },
    decreases s@.len() - pos,
{
    let len = s.unicode_len();
    let ghost rest = s@.skip(pos as int);
    if pos == len {
        proof {
            assert(rest =~= Seq::<char>::empty());
        }
        return Option::None;
    }
    let c = s.get_char(pos);
    proof {
        assert(rest[0] == s@[pos as int]);
        assert(rest.drop_first() =~= s@.skip(pos + 1));
    }
    if c == '"' {
        Option::Some((String::new(), pos + 1))
    } else if c == '\\' {
        if pos + 1 < len {
            let c2 = s.get_char(pos + 1);
            proof {
                assert(rest[1] == s@[pos + 1]);
            }
            if c2 == '"' || c2 == '\\' {
                proof {
                    assert(rest.skip(2) =~= s@.skip(pos + 2));
                }
                match parse_string_body(s, pos + 2) {
                    Option::Some((v, p2)) => {
                        let mut out = char_to_string(c2);
                        out.append(v.as_str());
                        Option::Some((out, p2))
                    },
                    Option::None => Option::None,
                }
            } else {
                Option::None
            }
        } else {
            proof {
                assert(rest.len() == 1);
            }
            Option::None
        }
    } else {
        match parse_string_body(s, pos + 1) {
            Option::Some((v, p2)) => {
                let mut out = char_to_string(c);
                out.append(v.as_str());
                Option::Some((out, p2))
            },
            Option::None => Option::None,
        }
    }
}

/// Parses a quoted string from `pos`, mirroring `p_string`.
fn parse_string(s: &str, pos: usize) -> (r: Option<(String, usize)>)
    requires
        pos <= s@.len(),
    ensures
        match r {
            Option::Some((v, p2)) => pos < p2 <= s@.len() && p_string(s@.skip(pos as int))
                == Option::Some((v@, s@.skip(p2 as int))),
            Option::None => p_string(s@.skip(pos as int)) is None,
        },
{
    let len = s.unicode_len();
    let ghost rest = s@.skip(pos as int);
    if pos == len {
        proof {
            assert(rest =~= Seq::<char>::empty());
        }
        return Option::None;
    }
    let c = s.get_char(pos);
    proof {
        assert(rest[0] == s@[pos as int]);
        assert(rest.drop_first() =~= s@.skip(pos + 1));
    }
    if c != '"' {
        return Option::None;
    }
    parse_string_body(s, pos + 1)
}

/// Accumulates digits from `pos`, mirroring `p_digits`.
fn parse_digits(s: &str, pos: usize, acc: i64) -> (r: Option<(i64, usize)>)
    requires
        pos <= s@.len(),
        0 <= acc <= 0x8000_0000,
    ensures
        match r {
            Option::Some((v, p2)) => pos <= p2 <= s@.len() && 0 <= v <= 0x8000_0000 && p_digits(
                s@.skip(pos as int),
                acc as int,
            ) == Option::Some((v as int, s@.skip(p2 as int))),
            Option::None => p_digits(s@.skip(pos as int), acc as int) is None,
        },
    decreases s@.len() - pos,
{
    let len = s.unicode_len();
    let ghost rest = s@.skip(pos as int);
    if pos == len {
        proof {
            assert(rest =~= Seq::<char>::empty());
        }
        return Option::Some((acc, pos));
    }
    let c = s.get_char(pos);
    proof {
        assert(rest[0] == s@[pos as int]);
        assert(rest.drop_first() =~= s@.skip(pos + 1));
    }
    if '0' <= c && c <= '9' {
        let d = (c as u32 as i64) - ('0' as u32 as i64);
        proof {
            assert(d == digit_val(rest[0]));
        }
        let acc2 = acc * 10 + d;
        if acc2 > 0x8000_0000 {
            Option::None
        } else {
            parse_digits(s, pos + 1, acc2)
        }
    } else {
        proof {
            assert(!is_digit(rest[0]));
        }
        Option::Some((acc, pos))
    }
}

/// Parses a 32-bit integer from `pos`, mirroring `p_int`.
fn parse_int(s: &str, pos: usize) -> (r: Option<(i32, usize)>)
    requires
        pos <= s@.len(),
    ensures
        match r {
            Option::Some((v, p2)) => pos <= p2 <= s@.len() && p_int(s@.skip(pos as int))
                == Option::Some((v as int, s@.skip(p2 as int))),
            Option::None => p_int(s@.skip(pos as int)) is None,
        },
{
    let len = s.unicode_len();
    let ghost rest = s@.skip(pos as int);
    if pos == len {
        proof {
            assert(rest =~= Seq::<char>::empty());
        }
        return Option::None;
    }
    let c = s.get_char(pos);
    proof {
        assert(rest[0] == s@[pos as int]);
        assert(rest.drop_first() =~= s@.skip(pos + 1));
    }
    if c == '-' && pos + 1 < len {
        let c2 = s.get_char(pos + 1);
        proof {
            assert(rest[1] == s@[pos + 1]);
        }
        if '0' <= c2 && c2 <= '9' {
            match parse_digits(s, pos + 1, 0) {
                Option::Some((v, p2)) => Option::Some(((-v) as i32, p2)),
                Option::None => Option::None,
            }
        } else {
            Option::None
        }
    } else if '0' <= c && c <= '9' {
        match parse_digits(s, pos, 0) {
            Option::Some((v, p2)) => {
                if v <= 0x7FFF_FFFF {
                    Option::Some((v as i32, p2))
                } else {
                    Option::None
                }
            },
            Option::None => Option::None,
        }
    } else {
        Option::None
    }
}

/// Consumes an exact literal from `pos`, mirroring `p_lit`.
fn expect_lit(s: &str, pos: usize, lit: &str) -> (r: Option<usize>)
    requires
        pos <= s@.len(),
    ensures
        match r {
            Option::Some(p2) => pos <= p2 <= s@.len() && p_lit(s@.skip(pos as int), lit@)
                == Option::Some(s@.skip(p2 as int)),
            Option::None => p_lit(s@.skip(pos as int), lit@) is None,
        },
{
    let len = s.unicode_len();
    let litlen = lit.unicode_len();
    let ghost rest = s@.skip(pos as int);
    if len - pos < litlen {
        return Option::None;
    }
    let seg = s.substring_char(pos, pos + litlen);
    proof {
        assert(seg@ =~= rest.take(litlen as int));
    }
    if str_eq(seg, lit) {
        proof {
            assert(rest.skip(litlen as int) =~= s@.skip(pos + litlen));
        }
        Option::Some(pos + litlen)
    } else {
        Option::None
    }
}

/// Parses a boolean from `pos`, mirroring `p_bool`.
fn parse_bool(s: &str, pos: usize) -> (r: Option<(bool, usize)>)
    requires
        pos <= s@.len(),
    ensures
        match r {
            Option::Some((v, p2)) => pos <= p2 <= s@.len() && p_bool(s@.skip(pos as int))
                == Option::Some((v, s@.skip(p2 as int))),
            Option::None => p_bool(s@.skip(pos as int)) is None,
        },
{
    proof {
        reveal_strlit("true");
        reveal_strlit("false");
    }
    let ghost rest = s@.skip(pos as int);
    match expect_lit(s, pos, "true") {
        Option::Some(p2) => {
            proof {
                assert(rest.take(4) =~= "true"@);
            }
            return Option::Some((true, p2));
        },
        Option::None => (),
    }
    match expect_lit(s, pos, "false") {
        Option::Some(p2) => {
            proof {
                assert(rest.take(5) =~= "false"@);
                if rest.len() >= 4 && rest.take(4) == "true"@ {
                    assert(rest[0] == 't');
                    assert(rest[0] == 'f');
                }
            }
            return Option::Some((false, p2));
        },
        Option::None => (),
    }
    proof {
        if rest.len() >= 4 && rest.take(4) == "true"@ {
            assert(p_lit(rest, "true"@) is Some) by {
                assert(rest.take("true"@.len() as int) == "true"@);
            }
        }
        if rest.len() >= 5 && rest.take(5) == "false"@ {
            assert(p_lit(rest, "false"@) is Some) by {
                assert(rest.take("false"@.len() as int) == "false"@);
            }
        }
    }
    Option::None
}


/// Parses one profile record from `pos`, mirroring `p_profile`.
#[verifier::rlimit(100)]
fn parse_profile(s: &str, pos: usize, fuel: u64) -> (r: Option<(MdxProfile, usize)>)
    requires
        pos <= s@.len(),
    ensures
        match r {
            Option::Some((p, p2)) => pos <= p2 <= s@.len() && p_profile(
                s@.skip(pos as int),
                fuel as nat,
            ) == Option::Some((p@, s@.skip(p2 as int))),
            Option::None => p_profile(s@.skip(pos as int), fuel as nat) is None,
        },
    decreases fuel, 1int,
{
    if fuel == 0 {
        return Option::None;
    }
    let q1 = match expect_lit(s, pos, "{\"title\":") {
        Option::Some(q) => q,
        Option::None => {
            return Option::None;
        },
    };
    let (title, q2) = match parse_string(s, q1) {
        Option::Some(x) => x,
        Option::None => {
            return Option::None;
        },
    };
    let q3 = match expect_lit(s, q2, ",\"description\":") {
        Option::Some(q) => q,
        Option::None => {
            return Option::None;
        },
    };
    let (description, q4) = match parse_string(s, q3) {
        Option::Some(x) => x,
        Option::None => {
            return Option::None;
        },
    };
    let q5 = match expect_lit(s, q4, ",\"url\":") {
        Option::Some(q) => q,
        Option::None => {
            return Option::None;
        },
    };
    let (url, q6) = match parse_string(s, q5) {
        Option::Some(x) => x,
        Option::None => {
            return Option::None;
        },
    };
    let q7 = match expect_lit(s, q6, ",\"disabled\":") {
        Option::Some(q) => q,
        Option::None => {
            return Option::None;
        },
    };
    let (disabled, q8) = match parse_bool(s, q7) {
        Option::Some(x) => x,
        Option::None => {
            return Option::None;
        },
    };
    let q9 = match expect_lit(s, q8, ",\"profileId\":") {
        Option::Some(q) => q,
        Option::None => {
            return Option::None;
        },
    };
    let (profile_id, q10) = match parse_int(s, q9) {
        Option::Some(x) => x,
        Option::None => {
            return Option::None;
        },
    };
    let q11 = match expect_lit(s, q10, ",\"options\":{\"fontFilePath\":") {
        Option::Some(q) => q,
        Option::None => {
            return Option::None;
        },
    };
    let (font, q12) = match parse_string(s, q11) {
        Option::Some(x) => x,
        Option::None => {
            return Option::None;
        },
    };
    let q13 = match expect_lit(s, q12, "},\"profiles\":") {
        Option::Some(q) => q,
        Option::None => {
            return Option::None;
        },
    };
    let (children, q14) = match parse_children(s, q13, fuel - 1) {
        Option::Some(x) => x,
        Option::None => {
            return Option::None;
        },
    };
    let q15 = match expect_lit(s, q14, ",\"asUnion\":") {
        Option::Some(q) => q,
        Option::None => {
            return Option::None;
        },
    };
    let (as_union, q16) = match parse_bool(s, q15) {
        Option::Some(x) => x,
        Option::None => {
            return Option::None;
        },
    };
    let q17 = match expect_lit(s, q16, "}") {
        Option::Some(q) => q,
        Option::None => {
            return Option::None;
        },
    };
    let profile = MdxProfile {
        title,
        description,
        url,
        disabled,
        profile_id,
        options: MdxOptions { font_file_path: font },
        profiles: children,
        as_union,
    };
    Option::Some((profile, q17))
}

/// Parses the `profiles` field from `pos`, mirroring `p_children`.
fn parse_children(s: &str, pos: usize, fuel: u64) -> (r: Option<(Option<Vec<MdxProfile>>, usize)>)
    requires
        pos <= s@.len(),
    ensures
        match r {
            Option::Some((cs, p2)) => pos <= p2 <= s@.len() && p_children(
                s@.skip(pos as int),
                fuel as nat,
            ) == Option::Some(
                (
                    match cs {
                        Option::Some(v) => Option::Some(views_of_vec(v@)),
                        Option::None => Option::None,
                    },
                    s@.skip(p2 as int),
                ),
            ),
            Option::None => p_children(s@.skip(pos as int), fuel as nat) is None,
        },
    decreases fuel, 0int,
{
    if fuel == 0 {
        return Option::None;
    }
    match expect_lit(s, pos, "null") {
        Option::Some(p2) => {
            return Option::Some((Option::None, p2));
        },
        Option::None => (),
    }
    match parse_profiles(s, pos, fuel - 1) {
        Option::Some((vs, p2)) => Option::Some((Option::Some(vs), p2)),
        Option::None => Option::None,
    }
}

/// Parses a profile array from `pos`, mirroring `p_profiles`.
fn parse_profiles(s: &str, pos: usize, fuel: u64) -> (r: Option<(Vec<MdxProfile>, usize)>)
    requires
        pos <= s@.len(),
    ensures
        match r {
            Option::Some((vs, p2)) => pos <= p2 <= s@.len() && p_profiles(
                s@.skip(pos as int),
                fuel as nat,
            ) == Option::Some((views_of_vec(vs@), s@.skip(p2 as int))),
            Option::None => p_profiles(s@.skip(pos as int), fuel as nat) is None,
        },
    decreases fuel, 1int,
{
    if fuel == 0 {
        return Option::None;
    }
    match expect_lit(s, pos, "[]") {
        Option::Some(p2) => {
            let out: Vec<MdxProfile> = Vec::new();
            proof {
                assert(views_of_vec(out@) =~= Seq::<ProfileView>::empty());
            }
            return Option::Some((out, p2));
        },
        Option::None => (),
    }
    let q1 = match expect_lit(s, pos, "[") {
        Option::Some(q) => q,
        Option::None => {
            return Option::None;
        },
    };
    let (first, q2) = match parse_profile(s, q1, fuel - 1) {
        Option::Some(x) => x,
        Option::None => {
            return Option::None;
        },
    };
    let (mut rest_vec, q3) = match parse_profiles_rest(s, q2, fuel - 1) {
        Option::Some(x) => x,
        Option::None => {
            return Option::None;
        },
    };
    let q4 = match expect_lit(s, q3, "]") {
        Option::Some(q) => q,
        Option::None => {
            return Option::None;
        },
    };
    let ghost firstv = first@;
    let ghost restv = views_of_vec(rest_vec@);
    let mut out: Vec<MdxProfile> = Vec::new();
    out.push(first);
    let ghost mid = out@;
    let ghost restvec0 = rest_vec@;
    out.append(&mut rest_vec);
    proof {
        lemma_views_of_vec(out@);
        lemma_views_of_vec(restvec0);
        lemma_views_of_vec(mid);
        assert(views_of_vec(out@) =~= seq![firstv] + restv) by {
            assert(out@.len() == mid.len() + restvec0.len());
            assert forall|x: int| 0 <= x < out@.len() implies views_of_vec(out@)[x] == (seq![
                firstv,
            ] + restv)[x] by {
                if x == 0 {
                    assert(out@[0] == mid[0]);
                } else {
                    assert(out@[x] == restvec0[x - 1]);
                    assert(views_of_vec(restvec0)[x - 1] == profile_view(restvec0[x - 1]));
                }
            }
        }
    }
    Option::Some((out, q4))
}

/// Parses the remainder of a profile array from `pos`, mirroring
/// `p_profiles_rest`.
fn parse_profiles_rest(s: &str, pos: usize, fuel: u64) -> (r: Option<(Vec<MdxProfile>, usize)>)
    requires
        pos <= s@.len(),
    ensures
        match r {
            Option::Some((vs, p2)) => pos <= p2 <= s@.len() && p_profiles_rest(
                s@.skip(pos as int),
                fuel as nat,
            ) == Option::Some((views_of_vec(vs@), s@.skip(p2 as int))),
            Option::None => p_profiles_rest(s@.skip(pos as int), fuel as nat) is None,
        },
    decreases fuel, 2int,
{
    if fuel == 0 {
        return Option::None;
    }
    let q1 = match expect_lit(s, pos, ",") {
        Option::Some(q) => q,
        Option::None => {
            let out: Vec<MdxProfile> = Vec::new();
            proof {
                assert(views_of_vec(out@) =~= Seq::<ProfileView>::empty());
            }
            return Option::Some((out, pos));
        },
    };
    let (first, q2) = match parse_profile(s, q1, fuel - 1) {
        Option::Some(x) => x,
        Option::None => {
            return Option::None;
        },
    };
    let (mut rest_vec, q3) = match parse_profiles_rest(s, q2, fuel - 1) {
        Option::Some(x) => x,
        Option::None => {
            return Option::None;
        },
    };
    let ghost firstv = first@;
    let ghost restv = views_of_vec(rest_vec@);
    let mut out: Vec<MdxProfile> = Vec::new();
    out.push(first);
    let ghost mid = out@;
    let ghost restvec0 = rest_vec@;
    out.append(&mut rest_vec);
    proof {
        lemma_views_of_vec(out@);
        lemma_views_of_vec(mid);
        lemma_views_of_vec(restvec0);
        assert(views_of_vec(out@) =~= seq![firstv] + restv) by {
            assert forall|x: int| 0 <= x < out@.len() implies views_of_vec(out@)[x] == (seq![
                firstv,
            ] + restv)[x] by {
                if x == 0 {
                    assert(out@[0] == mid[0]);
                } else {
                    assert(out@[x] == restvec0[x - 1]);
                    assert(views_of_vec(restvec0)[x - 1] == profile_view(restvec0[x - 1]));
                }
            }
        }
    }
    Option::Some((out, q3))
}

/// Parses a whole catalog: a profile array that consumes the entire
/// input.
pub fn catalog_from_json(s: &str) -> (r: Option<Vec<MdxProfile>>)
    requires
        s@.len() < usize::MAX,
    ensures
        match r {
            Option::Some(v) => parse_catalog(s@) == Option::Some(views_of_vec(v@)),
            Option::None => parse_catalog(s@) is None,
        },
{
    let len = s.unicode_len();
    proof {
        assert(s@.skip(0) =~= s@);
    }
    match parse_profiles(s, 0, len as u64 + 1) {
        Option::Some((v, p2)) => {
            if p2 == len {
                proof {
                    assert(s@.skip(p2 as int) =~= Seq::<char>::empty());
                }
                Option::Some(v)
            } else {
                proof {
                    assert(s@.skip(p2 as int).len() > 0);
                }
                Option::None
            }
        },
        Option::None => Option::None,
    }
}

} // verus!
