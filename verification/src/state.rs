//! The durable cursor file: a single JSON document holding the last scanned
//! repository id, rewritten wholesale on every cursor advance so a crash
//! never leaves a half-written cursor.
use crate::numeric::{
    all_digits, canonical_digits, dec_str, dec_val, lemma_canonical_dec_str, lemma_dec_str_props,
    parse_usize, usize_to_string,
};
use crate::strutil;
use vstd::prelude::*;

verus! {

pub open spec fn state_prefix() -> Seq<char> {
    "{\n  \"last_id\": {\n    \"github\": "@
}

pub open spec fn state_suffix() -> Seq<char> {
    "\n  }\n}\n"@
}

/// The full content of the cursor file for cursor value `id`.
pub open spec fn state_json(id: nat) -> Seq<char> {
    state_prefix() + dec_str(id) + state_suffix()
}

/// The rendering pins the digits segment between the fixed frame pieces.
pub proof fn lemma_state_json_parts(id: nat)
    ensures
        state_json(id).len() == state_prefix().len() + dec_str(id).len() + state_suffix().len(),
        strutil::starts_with(state_json(id), state_prefix()),
        strutil::ends_with(state_json(id), state_suffix()),
        state_json(id).subrange(
            state_prefix().len() as int,
            state_json(id).len() - state_suffix().len(),
        ) =~= dec_str(id),
{
    let s = state_json(id);
    let p = state_prefix().len() as int;
    let q = state_suffix().len() as int;
    assert(s.subrange(0, p) =~= state_prefix());
    assert(s.subrange(s.len() - q, s.len() as int) =~= state_suffix());
}

/// Two cursor values never render to the same file content.
pub proof fn lemma_state_json_injective(a: nat, b: nat)
    requires
        state_json(a) == state_json(b),
    ensures
        a == b,
{
    lemma_state_json_parts(a);
    lemma_state_json_parts(b);
    lemma_dec_str_props(a);
    lemma_dec_str_props(b);
    assert(dec_str(a) =~= dec_str(b));
    assert(dec_val(dec_str(a)) == dec_val(dec_str(b)));
}

/// Renders the cursor file for `id`.
pub fn render_state(id: usize) -> (r: String)
    ensures
        r@ == state_json(id as nat),
{
    let mut out = String::new();
    out.append("{\n  \"last_id\": {\n    \"github\": ");
    let digits = usize_to_string(id);
    out.append(digits.as_str());
    out.append("\n  }\n}\n");
    out
}

/// Reads a cursor value back out of a cursor file: `Some(v)` exactly when
/// the content is the rendering of `v`.
pub fn parse_state(s: &str) -> (r: Option<usize>)
    ensures
        match r {
            Some(v) => s@ == state_json(v as nat),
            None => forall|v: nat| v <= usize::MAX ==> s@ != state_json(v),
        },
{
    let pre = "{\n  \"last_id\": {\n    \"github\": ";
    let suf = "\n  }\n}\n";
    let n = s.unicode_len();
    let pre_len = pre.unicode_len();
    let suf_len = suf.unicode_len();
    if n < pre_len || n - pre_len < suf_len || n - pre_len - suf_len < 1 {
        proof {
            assert forall|v: nat| v <= usize::MAX implies s@ != state_json(v) by {
                lemma_state_json_parts(v);
                lemma_dec_str_props(v);
            }
        }
        return None;
    }
    if !strutil::str_starts_with(s, pre) {
        proof {
            assert forall|v: nat| v <= usize::MAX implies s@ != state_json(v) by {
                lemma_state_json_parts(v);
            }
        }
        return None;
    }
    if !strutil::str_ends_with(s, suf) {
        proof {
            assert forall|v: nat| v <= usize::MAX implies s@ != state_json(v) by {
                lemma_state_json_parts(v);
            }
        }
        return None;
    }
    let mid = s.substring_char(pre_len, n - suf_len);
    proof {
        assert(s@ =~= s@.subrange(0, pre_len as int) + mid@ + s@.subrange(
            n - suf_len,
            n as int,
        ));
    }
    let parsed = parse_usize(mid);
    let has_leading_zero = if mid.unicode_len() > 1 {
        mid.get_char(0) == '0'
    } else {
        false
    };
    match parsed {
        Some(v) if !has_leading_zero => {
            proof {
                assert(canonical_digits(mid@));
                lemma_canonical_dec_str(mid@);
                assert(mid@ == dec_str(v as nat));
            }
            Some(v)
        },
        _ => {
            proof {
                assert forall|v: nat| v <= usize::MAX implies s@ != state_json(v) by {
                    if s@ == state_json(v) {
                        lemma_state_json_parts(v);
                        lemma_dec_str_props(v);
                        assert(mid@ =~= dec_str(v));
                        assert(all_digits(mid@) && mid@.len() > 0);
                        assert(dec_val(mid@) == v);
                    }
                }
            }
            None
        },
    }
}

} // verus!
