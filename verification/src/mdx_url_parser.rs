//! Parsing of the service urls the application routes: the action name is
//! the first path segment after the base url, before any query string.

use vstd::prelude::*;
use crate::error::ZdbError;
use crate::text::char_to_string;
use crate::text::str_eq;

verus! {

/// An action a service url can request.
#[derive(Clone, Copy, Debug, PartialEq, Eq, Structural)]
pub enum MdxAction {
    Unknown,
    Entry,
    EntryX,
    HProgEntry,
    HProgEntryX,
    ProgEntry,
    ProgEntryX,
    IFrame,
    Mdd,
    Res,
    EncryptedRes,
    File,
    Sound,
    Launch,
    Debug,
    ViewImage,
    Info,
    Notify,
}

/// The action a path segment names.
pub open spec fn action_of(s: Seq<char>) -> MdxAction {
    if s == "iframe"@ {
        MdxAction::IFrame
    } else if s == "res"@ {
        MdxAction::Res
    } else if s == "eres"@ {
        MdxAction::EncryptedRes
    } else if s == "file"@ {
        MdxAction::File
    } else if s == "view_image"@ {
        MdxAction::ViewImage
    } else if s == "sound"@ {
        MdxAction::Sound
    } else if s == "entry"@ {
        MdxAction::Entry
    } else if s == "prog_entry"@ {
        MdxAction::ProgEntry
    } else if s == "h_prog_entry"@ {
        MdxAction::HProgEntry
    } else if s == "entryx"@ {
        MdxAction::EntryX
    } else if s == "prog_entryx"@ {
        MdxAction::ProgEntryX
    } else if s == "h_prog_entryx"@ {
        MdxAction::HProgEntryX
    } else if s == "mdd"@ {
        MdxAction::Mdd
    } else if s == "launch"@ {
        MdxAction::Launch
    } else if s == "debug"@ {
        MdxAction::Debug
    } else if s == "notify"@ {
        MdxAction::Notify
    } else if s == "info"@ {
        MdxAction::Info
    } else {
        MdxAction::Unknown
    }
}

impl MdxAction {
    /// The action a path segment names; anything unrecognized is
    /// `Unknown`.
    pub fn from_str(s: &str) -> (r: MdxAction)
        ensures
            r == action_of(s@),
    {
        if str_eq(s, "iframe") {
            MdxAction::IFrame
        } else if str_eq(s, "res") {
            MdxAction::Res
        } else if str_eq(s, "eres") {
            MdxAction::EncryptedRes
        } else if str_eq(s, "file") {
            MdxAction::File
        } else if str_eq(s, "view_image") {
            MdxAction::ViewImage
        } else if str_eq(s, "sound") {
            MdxAction::Sound
        } else if str_eq(s, "entry") {
            MdxAction::Entry
        } else if str_eq(s, "prog_entry") {
            MdxAction::ProgEntry
        } else if str_eq(s, "h_prog_entry") {
            MdxAction::HProgEntry
        } else if str_eq(s, "entryx") {
            MdxAction::EntryX
        } else if str_eq(s, "prog_entryx") {
            MdxAction::ProgEntryX
        } else if str_eq(s, "h_prog_entryx") {
            MdxAction::HProgEntryX
        } else if str_eq(s, "mdd") {
            MdxAction::Mdd
        } else if str_eq(s, "launch") {
            MdxAction::Launch
        } else if str_eq(s, "debug") {
            MdxAction::Debug
        } else if str_eq(s, "notify") {
            MdxAction::Notify
        } else if str_eq(s, "info") {
            MdxAction::Info
        } else {
            MdxAction::Unknown
        }
    }
}

/// `s` with every occurrence of `pat` replaced by `rep`, scanning left to
/// right without revisiting replacements.
pub open spec fn replace_all(s: Seq<char>, pat: Seq<char>, rep: Seq<char>) -> Seq<char>
    decreases s.len(),
    when pat.len() > 0
{
    if s.len() < pat.len() {
        s
    } else if s.take(pat.len() as int) == pat {
        rep + replace_all(s.skip(pat.len() as int), pat, rep)
    } else {
        seq![s[0]] + replace_all(s.drop_first(), pat, rep)
    }
}

/// The prefix of `s` before its first `?`, or all of `s`.
pub open spec fn upto_query(s: Seq<char>) -> Seq<char>
    decreases s.len(),
{
    if s.len() == 0 {
        Seq::empty()
    } else if s[0] == '?' {
        Seq::empty()
    } else {
        seq![s[0]] + upto_query(s.drop_first())
    }
}

/// A scan that found the first `?` at `q` (or none up to `q == s.len()`)
/// determines `upto_query`.
proof fn lemma_upto_query_scan(s: Seq<char>, q: int)
    requires
        0 <= q <= s.len(),
        forall|k: int| 0 <= k < q ==> s[k] != '?',
        q < s.len() ==> s[q] == '?',
    ensures
        upto_query(s) == s.take(q),
    decreases s.len(),
{
    if s.len() == 0 || s[0] == '?' {
        assert(upto_query(s) =~= s.take(q)) by {
            if s.len() > 0 {
                assert(q == 0) by {
                    if q > 0 {
                        assert(s[0] != '?');
                    }
                }
            }
        }
    } else {
        assert(q >= 1);
        assert forall|k: int| 0 <= k < q - 1 implies s.drop_first()[k] != '?' by {
            assert(s.drop_first()[k] == s[k + 1]);
        }
        assert(q - 1 < s.drop_first().len() ==> s.drop_first()[q - 1] == '?');
        lemma_upto_query_scan(s.drop_first(), q - 1);
        assert(seq![s[0]] + s.drop_first().take(q - 1) =~= s.take(q));
    }
}

/// The action a service url requests, relative to a base url: the base is
/// normalized, stripped from the front of the url, and the remainder up
/// to the first `?` names the action.
pub open spec fn parsed_action(url: Seq<char>, base: Seq<char>) -> MdxAction {
    let b = replace_all(base, "http.localhost"@, "localhost"@);
    let rest = if url.len() >= b.len() && url.take(b.len() as int) == b {
        url.skip(b.len() as int)
    } else {
        Seq::<char>::empty()
    };
    action_of(upto_query(rest))
}

/// Replaces every occurrence of `pat` in `s` by `rep`.
fn replace_all_str(s: &str, pat: &str, rep: &str) -> (r: String)
    requires
        pat@.len() > 0,
    ensures
        r@ == replace_all(s@, pat@, rep@),
{
    let slen = s.unicode_len();
    let plen = pat.unicode_len();
    let mut out = String::new();
    let mut i: usize = 0;
    proof {
        assert(s@.skip(0) =~= s@);
    }
    while i < slen
        invariant
            i <= slen,
            slen == s@.len(),
            plen == pat@.len(),
            plen > 0,
            replace_all(s@, pat@, rep@) == out@ + replace_all(s@.skip(i as int), pat@, rep@),
        decreases slen - i,
    {
        let ghost rest = s@.skip(i as int);
        if slen - i >= plen {
            let seg = s.substring_char(i, i + plen);
            proof {
                assert(seg@ =~= rest.take(plen as int));
            }
            if str_eq(seg, pat) {
                out.append(rep);
                proof {
                    assert(rest.skip(plen as int) =~= s@.skip(i + plen));
                }
                i = i + plen;
                continue;
            }
        }
        let c = s.get_char(i);
        let cs = char_to_string(c);
        out.append(cs.as_str());
        proof {
            assert(rest[0] == s@[i as int]);
            assert(rest.drop_first() =~= s@.skip(i + 1));
            if rest.len() >= plen {
                assert(rest.take(plen as int) != pat@);
            }
        }
        i = i + 1;
    }
    proof {
        assert(s@.skip(slen as int) =~= Seq::<char>::empty());
    }
    out
}

/// Parses the action of a service url. An unrecognized or missing action
/// is an invalid-parameter error.
pub fn parse_mdx_url(url: &str, base_url: &str) -> (r: Result<MdxAction, ZdbError>)
    ensures
        match r {
            Result::Ok(a) => a == parsed_action(url@, base_url@) && a != MdxAction::Unknown,
            Result::Err(e) => parsed_action(url@, base_url@) == MdxAction::Unknown && e
                == ZdbError::InvalidParameter,
        },
{
    proof {
        reveal_strlit("http.localhost");
    }
    let base = replace_all_str(base_url, "http.localhost", "localhost");
    let blen = base.unicode_len();
    let ulen = url.unicode_len();
    let mut action = MdxAction::Unknown;
    if ulen >= blen {
        let prefix = url.substring_char(0, blen);
        if str_eq(prefix, base.as_str()) {
            let rest = url.substring_char(blen, ulen);
            proof {
                assert(prefix@ =~= url@.take(blen as int));
                assert(rest@ =~= url@.skip(blen as int));
            }
            let rlen = rest.unicode_len();
            let mut q: usize = 0;
            let mut saw_q = false;
            let mut j: usize = 0;
            while j < rlen
                invariant
                    j <= rlen,
                    rlen == rest@.len(),
                    saw_q ==> q < rlen && rest@[q as int] == '?' && forall|k: int|
                        0 <= k < q ==> rest@[k] != '?',
                    !saw_q ==> q == 0 && forall|k: int| 0 <= k < j ==> rest@[k] != '?',
                decreases rlen - j,
            {
                if !saw_q && rest.get_char(j) == '?' {
                    saw_q = true;
                    q = j;
                }
                j = j + 1;
            }
            let cut = if saw_q {
                q
            } else {
                rlen
            };
            proof {
                lemma_upto_query_scan(rest@, cut as int);
            }
            let action_str = rest.substring_char(0, cut);
            proof {
                assert(action_str@ =~= rest@.take(cut as int));
            }
            action = MdxAction::from_str(action_str);
        } else {
            proof {
                assert(upto_query(Seq::<char>::empty()) =~= Seq::<char>::empty());
                reveal_strlit("iframe");
                reveal_strlit("res");
                reveal_strlit("eres");
                reveal_strlit("file");
                reveal_strlit("view_image");
                reveal_strlit("sound");
                reveal_strlit("entry");
                reveal_strlit("prog_entry");
                reveal_strlit("h_prog_entry");
                reveal_strlit("entryx");
                reveal_strlit("prog_entryx");
                reveal_strlit("h_prog_entryx");
                reveal_strlit("mdd");
                reveal_strlit("launch");
                reveal_strlit("debug");
                reveal_strlit("notify");
                reveal_strlit("info");
            }
        }
    } else {
        proof {
            reveal_strlit("iframe");
            reveal_strlit("res");
            reveal_strlit("eres");
            reveal_strlit("file");
            reveal_strlit("view_image");
            reveal_strlit("sound");
            reveal_strlit("entry");
            reveal_strlit("prog_entry");
            reveal_strlit("h_prog_entry");
            reveal_strlit("entryx");
            reveal_strlit("prog_entryx");
            reveal_strlit("h_prog_entryx");
            reveal_strlit("mdd");
            reveal_strlit("launch");
            reveal_strlit("debug");
            reveal_strlit("notify");
            reveal_strlit("info");
        }
    }
    if !matches!(action, MdxAction::Unknown) {
        Result::Ok(action)
    } else {
        Result::Err(ZdbError::InvalidParameter)
    }
}

} // verus!
