//! Relative paths, held as their components.
use vstd::prelude::*;
use vstd::string::*;

verus! {

/// The text of a relative path: its components joined by `/`.
pub open spec fn join_path(components: Seq<Seq<char>>) -> Seq<char>
    decreases components.len(),
{
    if components.len() == 0 {
        Seq::empty()
    } else if components.len() == 1 {
        components[0]
    } else {
        join_path(components.drop_last()) + seq!['/'] + components.last()
    }
}

/// The views of a list of strings.
pub open spec fn views(v: Seq<String>) -> Seq<Seq<char>> {
    v.map_values(|s: String| s@)
}

/// The text of a relative path given by its components, joined by `/`.
pub fn path_to_string(components: &Vec<String>) -> (r: String)
    ensures
        r@ == join_path(views(components@)),
{
    let mut out = String::new();
    let mut i: usize = 0;
    while i < components.len()
        invariant
            i <= components.len(),
            out@ == join_path(views(components@.take(i as int))),
        decreases components.len() - i,
    {
        proof {
            assert(views(components@.take(i + 1)).drop_last() =~= views(components@.take(i as int)));
        }
        if i > 0 {
            out.append("/");
        }
        out.append(components[i].as_str());
        proof {
            reveal_strlit("/");
            assert(views(components@.take(i + 1)).last() == components@[i as int]@);
        }
        i = i + 1;
    }
    proof {
        assert(components@.take(components.len() as int) =~= components@);
    }
    out
}

/// Whether two texts are equal, character by character.
pub fn same_text(a: &str, b: &str) -> (r: bool)
    ensures
        r == (a@ == b@),
{
    let n = a.unicode_len();
    if n != b.unicode_len() {
        return false;
    }
    let mut i: usize = 0;
    while i < n
        invariant
            n == a@.len() == b@.len(),
            i <= n,
            forall|j: int| 0 <= j < i ==> a@[j] == b@[j],
        decreases n - i,
    {
        if a.get_char(i) != b.get_char(i) {
            return false;
        }
        i = i + 1;
    }
    assert(a@ =~= b@);
    true
}

} // verus!
