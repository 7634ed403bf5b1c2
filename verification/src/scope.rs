use vstd::prelude::*;

verus! {

/// Whether `c` counts as alphanumeric under Unicode's general categories for
/// letters and numbers, as `char::is_alphanumeric` decides it.
pub uninterp spec fn is_unicode_alphanumeric(c: char) -> bool;

/// The ASCII letters and digits.
pub open spec fn is_ascii_alphanumeric_char(c: char) -> bool {
    (97 <= c as u32 && c as u32 <= 122) || (65 <= c as u32 && c as u32 <= 90) || (48 <= c as u32
        && c as u32 <= 57)
}

/// Relies on std's `char::is_alphanumeric`: a function of the character alone,
/// true exactly on Unicode letters and numbers; on ASCII characters that means
/// the letters and the digits.
#[verifier::external_body]
fn char_is_alphanumeric(c: char) -> (r: bool)
    ensures
        r == is_unicode_alphanumeric(c),
        (c as u32) < 128 ==> r == is_ascii_alphanumeric_char(c),
{
    c.is_alphanumeric()
}

/// What one character of a path becomes in the derived scope identifier.
pub open spec fn sanitized_char(c: char) -> char {
    if is_unicode_alphanumeric(c) {
        c
    } else {
        '_'
    }
}

/// The scope identifier derived from a directory path: every character that is
/// not alphanumeric is replaced by an underscore.
pub open spec fn sanitized(path: Seq<char>) -> Seq<char> {
    path.map_values(|c: char| sanitized_char(c))
}

/// Derives the name of the persisted collection for a directory from the
/// directory's path, character by character.
pub fn sanitize_table_name(path: &str) -> (r: String)
    ensures
        r@ == sanitized(path@),
{
    let n = path.unicode_len();
    let mut out = String::new();
    let mut i: usize = 0;
    while i < n
        invariant
            i <= n,
            n == path@.len(),
            out@ == sanitized(path@.take(i as int)),
        decreases n - i,
    {
        let c = path.get_char(i);
        if char_is_alphanumeric(c) {
            let piece = path.substring_char(i, i + 1);
            out.append(piece);
            proof {
                assert(piece@ =~= seq![path@[i as int]]);
            }
        } else {
            out.append("_");
            proof {
                reveal_strlit("_");
                assert("_"@ =~= seq!['_']);
            }
        }
        proof {
            assert(sanitized(path@.take(i + 1 as int)) =~= sanitized(path@.take(i as int)).push(
                sanitized_char(path@[i as int]),
            ));
        }
        i += 1;
    }
    proof {
        assert(path@.take(n as int) =~= path@);
    }
    out
}

} // verus!
