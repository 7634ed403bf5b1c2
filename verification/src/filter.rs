use vstd::prelude::*;

verus! {

/// The code point of `c` with an ASCII upper-case letter folded to lower case.
pub open spec fn lower_code(c: char) -> int {
    if 65 <= c as u32 && c as u32 <= 90 {
        c as u32 + 32
    } else {
        c as int
    }
}

/// Whether `ext` equals `target` once ASCII case is folded.
pub open spec fn matches_lower(ext: Seq<char>, target: Seq<char>) -> bool {
    ext.len() == target.len() && forall|i: int|
        0 <= i < ext.len() ==> lower_code(ext[i]) == target[i] as u32
}

/// Whether position `i` of `name` is the separator before the extension: the
/// last dot of the name, not in first position.
pub open spec fn is_ext_sep(name: Seq<char>, i: int) -> bool {
    &&& 0 < i < name.len()
    &&& name[i] == '.'
    &&& forall|j: int| i < j < name.len() ==> name[j] != '.'
}

/// The accepted image extensions.
pub open spec fn accepted_ext(ext: Seq<char>) -> bool {
    ||| matches_lower(ext, seq!['j', 'p', 'g'])
    ||| matches_lower(ext, seq!['j', 'p', 'e', 'g'])
    ||| matches_lower(ext, seq!['p', 'n', 'g'])
    ||| matches_lower(ext, seq!['h', 'e', 'i', 'f'])
    ||| matches_lower(ext, seq!['h', 'e', 'i', 'c'])
}

/// Whether a filename names an image: its extension, matched without regard
/// to ASCII case, is one of the accepted set.
pub open spec fn is_image_name(name: Seq<char>) -> bool {
    exists|i: int| is_ext_sep(name, i) && accepted_ext(name.subrange(i + 1, name.len() as int))
}

/// The code point of `c` with an ASCII upper-case letter folded to lower case.
fn lower_code_exec(c: char) -> (r: u32)
    ensures
        r == lower_code(c),
{
    let u = c as u32;
    if 65 <= u && u <= 90 {
        u + 32
    } else {
        u
    }
}

/// Decides whether `name` has an extension in the accepted image set,
/// matching it case-insensitively.
pub fn is_image_filename(name: &str) -> (r: bool)
    ensures
        r == is_image_name(name@),
{
    let n = name.unicode_len();
    let mut i: usize = n;
    while i > 0 && name.get_char(i - 1) != '.'
        invariant
            i <= n,
            n == name@.len(),
            forall|j: int| i <= j < n ==> name@[j] != '.',
        decreases i,
    {
        i = i - 1;
    }
    if i <= 1 {
        // No dot at all, or a name whose only remaining dot candidate is its
        // first character: no extension.
        proof {
            assert(forall|k: int| #![auto] is_ext_sep(name@, k) ==> false);
        }
        return false;
    }
    let p = i - 1;
    proof {
        assert(name@[p as int] == '.');
        assert(is_ext_sep(name@, p as int));
        assert(forall|k: int| is_ext_sep(name@, k) ==> k == p as int) by {
            assert forall|k: int| is_ext_sep(name@, k) implies k == p as int by {
                if k < p as int {
                    assert(name@[p as int] == '.');
                } else if k > p as int {
                    assert(name@[k] != '.');
                }
            }
        }
    }
    let start = p + 1;
    let len = n - start;
    let ghost ext = name@.subrange(start as int, n as int);
    if len == 3 {
        let c0 = lower_code_exec(name.get_char(start));
        let c1 = lower_code_exec(name.get_char(start + 1));
        let c2 = lower_code_exec(name.get_char(start + 2));
        let r = (c0 == 106 && c1 == 112 && c2 == 103) || (c0 == 112 && c1 == 110 && c2 == 103);
        proof {
            assert(accepted_ext(ext) == r);
        }
        r
    } else if len == 4 {
        let c0 = lower_code_exec(name.get_char(start));
        let c1 = lower_code_exec(name.get_char(start + 1));
        let c2 = lower_code_exec(name.get_char(start + 2));
        let c3 = lower_code_exec(name.get_char(start + 3));
        let r = (c0 == 106 && c1 == 112 && c2 == 101 && c3 == 103) || (c0 == 104 && c1 == 101
            && c2 == 105 && (c3 == 102 || c3 == 99));
        proof {
            assert(accepted_ext(ext) == r);
        }
        r
    } else {
        proof {
            assert(!accepted_ext(ext));
        }
        false
    }
}

/// The subsequence of `names` that names images, in order.
pub open spec fn image_names_of(names: Seq<Seq<char>>) -> Seq<Seq<char>>
    decreases names.len(),
{
    if names.len() == 0 {
        Seq::empty()
    } else {
        let rest = image_names_of(names.drop_last());
        if is_image_name(names.last()) {
            rest.push(names.last())
        } else {
            rest
        }
    }
}

/// Keeps, in order, exactly the filenames that name images.
pub fn filter_image_names(names: &Vec<String>) -> (r: Vec<String>)
    ensures
        r.deep_view() == image_names_of(names.deep_view()),
{
    let mut out: Vec<String> = Vec::new();
    let mut i: usize = 0;
    while i < names.len()
        invariant
            i <= names.len(),
            out.deep_view() == image_names_of(names.deep_view().take(i as int)),
        decreases names.len() - i,
    {
        let ghost prefix = names.deep_view().take(i as int);
        let ghost next = names.deep_view().take(i + 1);
        proof {
            assert(next.drop_last() =~= prefix);
            assert(next.last() == names@[i as int]@);
        }
        if is_image_filename(names[i].as_str()) {
            let ghost before = out.deep_view();
            out.push(names[i].clone());
            proof {
                assert(image_names_of(next) == before.push(names@[i as int]@));
                assert(out.deep_view() =~~= before.push(names@[i as int]@));
            }
        } else {
            proof {
                assert(image_names_of(next) == image_names_of(prefix));
            }
        }
        i += 1;
    }
    proof {
        assert(names.deep_view().take(names@.len() as int) =~= names.deep_view());
    }
    out
}

} // verus!
