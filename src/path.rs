use vstd::prelude::*;
use vstd::string::*;

use crate::crypto::HashValue;
use crate::error::Error;

verus! {

/// The `/`-separated components of a path, as `str::split('/')` yields them:
/// an empty string has one empty component.
pub open spec fn components_of(s: Seq<char>) -> Seq<Seq<char>>
    decreases s.len(),
{
    if s.len() == 0 {
        seq![Seq::<char>::empty()]
    } else {
        let head = components_of(s.drop_last());
        if s.last() == '/' {
            head.push(Seq::<char>::empty())
        } else {
            head.update(head.len() - 1, head.last().push(s.last()))
        }
    }
}

/// The component that names the parent directory.
pub open spec fn parent_component() -> Seq<char> {
    seq!['.', '.']
}

/// A path is safe when it is non-empty, does not start with `/`, and no
/// component is exactly `..`.
pub open spec fn is_safe_path(s: Seq<char>) -> bool {
    &&& s.len() > 0
    &&& s[0] != '/'
    &&& forall|i: int| 0 <= i < components_of(s).len() ==> components_of(s)[i] != parent_component()
}

/// The message of the error that refuses the unsafe path `s`.
pub open spec fn path_error(s: Seq<char>) -> Seq<char> {
    if s.len() == 0 {
        "path must not be empty"@
    } else if s[0] == '/' {
        "path must not start with '/'"@
    } else {
        "path must not contain a '..' component"@
    }
}

/// Splits `s` on `/`.
pub fn split_components(s: &str) -> (r: Vec<String>)
    ensures
        r@.map_values(|c: String| c@) == components_of(s@),
{
    let n = s.unicode_len();
    let mut done: Vec<String> = Vec::new();
    let mut start: usize = 0;
    let mut i: usize = 0;
    proof {
        assert(s@.subrange(0, 0) =~= Seq::<char>::empty());
    }
    while i < n
        invariant
            n == s@.len(),
            start <= i <= n,
            components_of(s@.subrange(0, i as int)) == done@.map_values(|c: String| c@).push(
                s@.subrange(start as int, i as int),
            ),
        decreases n - i,
    {
        let ch = s.get_char(i);
        proof {
            assert(s@.subrange(0, i + 1).drop_last() =~= s@.subrange(0, i as int));
            assert(s@.subrange(0, i + 1).last() == ch);
        }
        if ch == '/' {
            let part = String::from_str(s.substring_char(start, i));
            let ghost before = done@.map_values(|c: String| c@);
            done.push(part);
            proof {
                assert(done@.map_values(|c: String| c@) =~= before.push(s@.subrange(start as int, i as int)));
                assert(s@.subrange(i + 1, i + 1) =~= Seq::<char>::empty());
            }
            start = i + 1;
        } else {
            proof {
                assert(s@.subrange(start as int, i + 1) =~= s@.subrange(start as int, i as int).push(ch));
            }
        }
        i = i + 1;
    }
    let last = String::from_str(s.substring_char(start, n));
    let ghost before = done@.map_values(|c: String| c@);
    done.push(last);
    proof {
        assert(s@.subrange(0, n as int) =~= s@);
        assert(done@.map_values(|c: String| c@) =~= before.push(s@.subrange(start as int, n as int)));
    }
    done
}

fn is_parent_component(c: &String) -> (r: bool)
    ensures
        r == (c@ == parent_component()),
{
    let t = c.as_str();
    if t.unicode_len() != 2 {
        return false;
    }
    let a = t.get_char(0);
    let b = t.get_char(1);
    proof {
        if a == '.' && b == '.' {
            assert(c@ =~= parent_component());
        }
    }
    a == '.' && b == '.'
}

/// Checks that `path` is safe to use below a directory: non-empty, relative,
/// and without a `..` component.
pub fn safe_path(path: &str) -> (r: Result<(), Error>)
    ensures
        r is Ok <==> is_safe_path(path@),
        r is Err ==> r->Err_0 is Encoding && r->Err_0->Encoding_0@ == path_error(path@),
{
    if path.unicode_len() == 0 {
        return Err(Error::Encoding(String::from_str("path must not be empty")));
    }
    if path.get_char(0) == '/' {
        return Err(Error::Encoding(String::from_str("path must not start with '/'")));
    }
    let parts = split_components(path);
    let ghost comps = components_of(path@);
    let mut i: usize = 0;
    while i < parts.len()
        invariant
            parts@.map_values(|c: String| c@) == comps,
            comps == components_of(path@),
            path@.len() > 0 && path@[0] != '/',
            i <= parts@.len(),
            forall|j: int| 0 <= j < i ==> comps[j] != parent_component(),
        decreases parts@.len() - i,
    {
        assert(comps[i as int] == parts@[i as int]@);
        if is_parent_component(&parts[i]) {
            return Err(Error::Encoding(String::from_str("path must not contain a '..' component")));
        }
        i = i + 1;
    }
    assert(parts@.len() == comps.len());
    Ok(())
}


/// Length of the directory part of `s`: everything up to and including the
/// last `/`, or nothing when there is none.
pub open spec fn dir_len(s: Seq<char>) -> int
    decreases s.len(),
{
    if s.len() == 0 {
        0
    } else if s.last() == '/' {
        s.len() as int
    } else {
        dir_len(s.drop_last())
    }
}

/// The number of `/` in `s`.
pub open spec fn slash_count(s: Seq<char>) -> nat
    decreases s.len(),
{
    if s.len() == 0 {
        0
    } else {
        slash_count(s.drop_last()) + if s.last() == '/' { 1nat } else { 0nat }
    }
}

proof fn lemma_components_len(s: Seq<char>)
    ensures
        components_of(s).len() == slash_count(s) + 1,
    decreases s.len(),
{
    if s.len() > 0 {
        lemma_components_len(s.drop_last());
    }
}

proof fn lemma_slash_count_concat(a: Seq<char>, b: Seq<char>)
    ensures
        slash_count(a + b) == slash_count(a) + slash_count(b),
    decreases b.len(),
{
    if b.len() == 0 {
        assert(a + b =~= a);
    } else {
        assert((a + b).drop_last() =~= a + b.drop_last());
        lemma_slash_count_concat(a, b.drop_last());
    }
}

proof fn lemma_no_slash(h: Seq<char>)
    requires
        forall|i: int| 0 <= i < h.len() ==> h[i] != '/',
    ensures
        slash_count(h) == 0,
    decreases h.len(),
{
    if h.len() > 0 {
        lemma_no_slash(h.drop_last());
    }
}

proof fn lemma_dir_len_bounds(s: Seq<char>)
    ensures
        0 <= dir_len(s) <= s.len(),
    decreases s.len(),
{
    if s.len() > 0 {
        lemma_dir_len_bounds(s.drop_last());
    }
}

/// Prefixing the file name with a hash that holds no `/` keeps the number of
/// components.
pub proof fn lemma_hash_prefix_keeps_components(s: Seq<char>, h: Seq<char>)
    requires
        forall|i: int| 0 <= i < h.len() ==> h[i] != '/',
    ensures
        components_of(hash_prefixed(s, h)).len() == components_of(s).len(),
{
    lemma_dir_len_bounds(s);
    let k = dir_len(s);
    let dir = s.subrange(0, k);
    let file = s.subrange(k, s.len() as int);
    assert(s =~= dir + file);
    lemma_slash_count_concat(dir, file);
    lemma_no_slash(h);
    lemma_no_slash(seq!['.']);
    lemma_slash_count_concat(dir, h);
    lemma_slash_count_concat(dir + h, seq!['.']);
    lemma_slash_count_concat(dir + h + seq!['.'], file);
    lemma_components_len(s);
    lemma_components_len(hash_prefixed(s, h));
}

/// `s` with its last component prefixed by `h` and a dot.
pub open spec fn hash_prefixed(s: Seq<char>, h: Seq<char>) -> Seq<char> {
    s.subrange(0, dir_len(s)) + h + seq!['.'] + s.subrange(dir_len(s), s.len() as int)
}

/// Wrapper for a path to metadata, without a file extension.
#[derive(Debug, Clone, PartialEq, Eq, PartialOrd, Ord, Hash)]
pub struct MetadataPath(String);

impl MetadataPath {
    pub closed spec fn view(&self) -> Seq<char> {
        self.0@
    }

    /// Creates a `MetadataPath`, refusing an unsafe path.
    pub fn new(path: &str) -> (r: Result<MetadataPath, Error>)
        ensures
            r is Ok <==> is_safe_path(path@),
            r is Ok ==> r->Ok_0@ == path@,
            r is Err ==> r->Err_0 is Encoding && r->Err_0->Encoding_0@ == path_error(path@),
    {
        let checked = safe_path(path);
        match checked {
            Ok(()) => Ok(MetadataPath(String::from_str(path))),
            Err(e) => Err(e),
        }
    }

    /// The path as a string.
    pub fn as_str(&self) -> (r: &str)
        ensures
            r@ == self@,
    {
        self.0.as_str()
    }
}

/// Wrapper for the real path to a target.
#[derive(Debug, Clone, PartialEq, Eq, PartialOrd, Ord, Hash)]
pub struct TargetPath(String);

impl TargetPath {
    pub closed spec fn view(&self) -> Seq<char> {
        self.0@
    }

    /// A target path always holds a safe path.
    pub open spec fn wf(&self) -> bool {
        is_safe_path(self@)
    }

    /// Creates a `TargetPath`, refusing an unsafe path.
    pub fn new(path: String) -> (r: Result<TargetPath, Error>)
        ensures
            r is Ok <==> is_safe_path(path@),
            r is Ok ==> r->Ok_0@ == path@ && r->Ok_0.wf(),
            r is Err ==> r->Err_0 is Encoding && r->Err_0->Encoding_0@ == path_error(path@),
    {
        let checked = safe_path(path.as_str());
        match checked {
            Ok(()) => Ok(TargetPath(path)),
            Err(e) => Err(e),
        }
    }

    /// The `/`-separated components of the path.
    pub fn components(&self) -> (r: Vec<String>)
        ensures
            r@.map_values(|c: String| c@) == components_of(self@),
    {
        split_components(self.0.as_str())
    }

    /// The string value of the path.
    pub fn value(&self) -> (r: &str)
        ensures
            r@ == self@,
    {
        self.0.as_str()
    }

    /// The sibling path whose file name carries `hash` as a prefix:
    /// `foo/bar` becomes `foo/<hash>.bar`.
    pub fn with_hash_prefix(&self, hash: &HashValue) -> (r: Result<TargetPath, Error>)
        requires
            hash.wf(),
        ensures
            r is Ok <==> is_safe_path(hash_prefixed(self@, hash@)),
            r is Ok ==> r->Ok_0@ == hash_prefixed(self@, hash@),
            r is Ok ==> components_of(r->Ok_0@).len() == components_of(self@).len(),
            r is Err ==> r->Err_0 is Encoding && r->Err_0->Encoding_0@ == path_error(
                hash_prefixed(self@, hash@),
            ),
    {
        let s = self.0.as_str();
        let n = s.unicode_len();
        let mut k: usize = 0;
        let mut i: usize = 0;
        proof {
            assert(s@.subrange(0, 0) =~= Seq::<char>::empty());
        }
        while i < n
            invariant
                n == s@.len(),
                i <= n,
                k as int == dir_len(s@.subrange(0, i as int)),
                k <= i,
            decreases n - i,
        {
            proof {
                assert(s@.subrange(0, i + 1).drop_last() =~= s@.subrange(0, i as int));
            }
            if s.get_char(i) == '/' {
                k = i + 1;
            }
            i = i + 1;
        }
        proof {
            assert(s@.subrange(0, n as int) =~= s@);
        }
        let dir = String::from_str(s.substring_char(0, k));
        let with_hash = dir.concat(hash.as_str());
        let dotted = with_hash.concat(".");
        proof {
            reveal_strlit(".");
        }
        let joined = dotted.concat(s.substring_char(k, n));
        assert(joined@ =~= hash_prefixed(self@, hash@));
        proof {
            lemma_hash_prefix_keeps_components(self@, hash@);
        }
        TargetPath::new(joined)
    }
}

} // verus!
