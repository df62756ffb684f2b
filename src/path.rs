use vstd::prelude::*;

verus! {

/// `s[a..b]` as a one-element sequence when it is not empty, else nothing.
pub open spec fn piece(s: Seq<char>, a: int, b: int) -> Seq<Seq<char>> {
    if a < b {
        seq![s.subrange(a, b)]
    } else {
        Seq::empty()
    }
}

/// The components of `s` from index `i` on, where the component in progress
/// began at `start`.
pub open spec fn split_from(s: Seq<char>, start: int, i: int) -> Seq<Seq<char>>
    decreases s.len() - i,
{
    if i >= s.len() {
        piece(s, start, s.len() as int)
    } else if s[i] == '/' {
        piece(s, start, i) + split_from(s, i + 1, i + 1)
    } else {
        split_from(s, start, i + 1)
    }
}

/// The names that a slash-separated path lists, in order. Empty names, from
/// leading, trailing or doubled slashes, are no components.
pub open spec fn path_components(s: Seq<char>) -> Seq<Seq<char>> {
    split_from(s, 0, 0)
}

/// The views of a sequence of strings.
pub open spec fn texts(v: Seq<String>) -> Seq<Seq<char>> {
    v.map_values(|t: String| t@)
}

/// Joins a parent path and a name with a slash; a name under the empty path
/// is its own path.
pub open spec fn join(prefix: Seq<char>, name: Seq<char>) -> Seq<char> {
    if prefix.len() == 0 {
        name
    } else {
        prefix + seq!['/'] + name
    }
}

/// Splits a slash-separated path into its non-empty components.
pub fn split_path(path: &str) -> (r: Vec<String>)
    ensures
        texts(r@) == path_components(path@),
{
    let n = path.unicode_len();
    let mut out: Vec<String> = Vec::new();
    let mut start: usize = 0;
    let mut i: usize = 0;
    while i < n
        invariant
            n == path@.len(),
            start <= i <= n,
            texts(out@) + split_from(path@, start as int, i as int) == path_components(path@),
        decreases n - i,
    {
        if path.get_char(i) == '/' {
            if start < i {
                let part = path.substring_char(start, i).to_owned();
                proof {
                    assert(texts(out@.push(part)) =~= texts(out@) + piece(path@, start as int, i as int));
                }
                out.push(part);
            } else {
                assert(piece(path@, start as int, i as int) =~= Seq::empty());
                assert(texts(out@) + Seq::<Seq<char>>::empty() =~= texts(out@));
            }
            assert(texts(out@) + split_from(path@, (i + 1) as int, (i + 1) as int) =~= path_components(path@));
            start = i + 1;
        }
        i = i + 1;
    }
    if start < n {
        let part = path.substring_char(start, n).to_owned();
        proof {
            assert(texts(out@.push(part)) =~= texts(out@) + piece(path@, start as int, n as int));
        }
        out.push(part);
    } else {
        assert(piece(path@, start as int, n as int) =~= Seq::empty());
        assert(texts(out@) + Seq::<Seq<char>>::empty() =~= texts(out@));
    }
    out
}

/// Joins a parent path and a name with a slash.
pub fn join_path(prefix: &String, name: &String) -> (r: String)
    ensures
        r@ == join(prefix@, name@),
{
    if prefix.unicode_len() == 0 {
        name.clone()
    } else {
        let mut r = prefix.clone();
        r.append("/");
        r.append(name.as_str());
        proof {
            reveal_strlit("/");
        }
        r
    }
}

} // verus!
