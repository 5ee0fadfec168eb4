//! Character and path-string primitives: ASCII case folding, the
//! case-insensitive lexicographic order used to sort sibling entries, and the
//! last-separator searches behind extension splitting and basenames.
//!
//! Paths are modelled as `/`-separated strings; an entry name never contains
//! a separator.
use vstd::prelude::*;

verus! {

/// The code point of `c` with an ASCII capital letter folded to lower case.
pub open spec fn fold_code(c: char) -> u32 {
    if 65 <= c as u32 && c as u32 <= 90 {
        (c as u32 + 32) as u32
    } else {
        c as u32
    }
}

/// `a` and `b` are equal up to ASCII case.
pub open spec fn eq_ci(a: Seq<char>, b: Seq<char>) -> bool {
    a.len() == b.len() && (forall|i: int| 0 <= i < a.len() ==> fold_code(a[i]) == fold_code(b[i]))
}

/// Case-insensitive lexicographic order on names: `a` sorts no later than `b`.
pub open spec fn lex_le(a: Seq<char>, b: Seq<char>) -> bool
    decreases a.len(),
{
    if a.len() == 0 {
        true
    } else if b.len() == 0 {
        false
    } else if fold_code(a[0]) < fold_code(b[0]) {
        true
    } else if fold_code(a[0]) > fold_code(b[0]) {
        false
    } else {
        lex_le(a.drop_first(), b.drop_first())
    }
}

/// `lex_le` is total: any two names are comparable.
pub proof fn lemma_lex_le_total(a: Seq<char>, b: Seq<char>)
    ensures
        lex_le(a, b) || lex_le(b, a),
    decreases a.len(),
{
    if a.len() == 0 || b.len() == 0 {
    } else if fold_code(a[0]) == fold_code(b[0]) {
        lemma_lex_le_total(a.drop_first(), b.drop_first());
    }
}

/// `lex_le` is transitive.
pub proof fn lemma_lex_le_trans(a: Seq<char>, b: Seq<char>, c: Seq<char>)
    requires
        lex_le(a, b),
        lex_le(b, c),
    ensures
        lex_le(a, c),
    decreases a.len(),
{
    if a.len() == 0 || b.len() == 0 || c.len() == 0 {
    } else if fold_code(a[0]) == fold_code(b[0]) && fold_code(b[0]) == fold_code(c[0]) {
        lemma_lex_le_trans(a.drop_first(), b.drop_first(), c.drop_first());
    }
}

/// Folded code point of one character.
fn fold_code_exec(c: char) -> (r: u32)
    ensures
        r == fold_code(c),
{
    let u = c as u32;
    if 65 <= u && u <= 90 {
        u + 32
    } else {
        u
    }
}

/// Case-insensitive equality of two strings, character by character.
pub fn str_eq_ci(a: &str, b: &str) -> (r: bool)
    ensures
        r == eq_ci(a@, b@),
{
    let alen = a.unicode_len();
    let blen = b.unicode_len();
    if alen != blen {
        return false;
    }
    let mut i: usize = 0;
    while i < alen
        invariant
            i <= alen,
            alen == a@.len(),
            alen == b@.len(),
            forall|j: int| 0 <= j < i ==> fold_code(a@[j]) == fold_code(b@[j]),
        decreases alen - i,
    {
        let ca = a.get_char(i);
        let cb = b.get_char(i);
        if fold_code_exec(ca) != fold_code_exec(cb) {
            return false;
        }
        i = i + 1;
    }
    true
}

/// Case-insensitive lexicographic comparison of two strings.
pub fn lex_le_str(a: &str, b: &str) -> (r: bool)
    ensures
        r == lex_le(a@, b@),
{
    let alen = a.unicode_len();
    let blen = b.unicode_len();
    let mut i: usize = 0;
    proof {
        assert(a@.skip(0) =~= a@);
        assert(b@.skip(0) =~= b@);
    }
    loop
        invariant
            i <= alen,
            i <= blen,
            alen == a@.len(),
            blen == b@.len(),
            lex_le(a@, b@) == lex_le(a@.skip(i as int), b@.skip(i as int)),
        decreases alen - i,
    {
        if i >= alen {
            proof {
                assert(a@.skip(i as int).len() == 0);
            }
            return true;
        }
        if i >= blen {
            proof {
                assert(b@.skip(i as int).len() == 0);
                assert(a@.skip(i as int).len() > 0);
            }
            return false;
        }
        let ca = a.get_char(i);
        let cb = b.get_char(i);
        let fa = fold_code_exec(ca);
        let fb = fold_code_exec(cb);
        proof {
            assert(a@.skip(i as int)[0] == a@[i as int]);
            assert(b@.skip(i as int)[0] == b@[i as int]);
        }
        if fa < fb {
            return true;
        }
        if fa > fb {
            return false;
        }
        proof {
            assert(a@.skip(i as int).drop_first() =~= a@.skip(i + 1));
            assert(b@.skip(i as int).drop_first() =~= b@.skip(i + 1));
        }
        i = i + 1;
    }
}

/// Index of the last occurrence of `c` in `s`, if any.
pub open spec fn last_index_of(s: Seq<char>, c: char) -> Option<int>
    decreases s.len(),
{
    if s.len() == 0 {
        None
    } else if s[s.len() - 1] == c {
        Some(s.len() - 1)
    } else {
        last_index_of(s.drop_last(), c)
    }
}

/// What `last_index_of` returns: the last matching index, or nothing when no
/// character matches.
pub proof fn lemma_last_index_of(s: Seq<char>, c: char)
    ensures
        match last_index_of(s, c) {
            Some(i) => 0 <= i < s.len() && s[i] == c && (forall|j: int|
                i < j < s.len() ==> s[j] != c),
            None => forall|j: int| 0 <= j < s.len() ==> s[j] != c,
        },
    decreases s.len(),
{
    if s.len() == 0 {
    } else if s[s.len() - 1] == c {
    } else {
        lemma_last_index_of(s.drop_last(), c);
        assert(forall|j: int| 0 <= j < s.len() - 1 ==> s.drop_last()[j] == s[j]);
    }
}

/// Last occurrence of `c` in `s`, searching from the end.
pub fn find_last_char(s: &str, c: char) -> (r: Option<usize>)
    ensures
        match r {
            Some(i) => Some(i as int) == last_index_of(s@, c),
            None => last_index_of(s@, c) is None,
        },
{
    let len = s.unicode_len();
    let mut i: usize = len;
    proof {
        assert(s@.take(len as int) =~= s@);
    }
    while i > 0
        invariant
            i <= len,
            len == s@.len(),
            last_index_of(s@, c) == last_index_of(s@.take(i as int), c),
        decreases i,
    {
        let ch = s.get_char(i - 1);
        proof {
            assert(s@.take(i as int)[i - 1] == s@[i - 1]);
        }
        if ch == c {
            proof {
                assert(last_index_of(s@.take(i as int), c) == Some(i - 1 as int));
            }
            return Some(i - 1);
        }
        proof {
            assert(s@.take(i as int).drop_last() =~= s@.take(i - 1));
        }
        i = i - 1;
    }
    proof {
        assert(s@.take(0).len() == 0);
    }
    None
}

/// Index of the dot that separates a name's stem from its final extension.
/// A dot in first position marks a hidden name, not an extension, and a name
/// without a dot has no extension at all.
pub open spec fn ext_split_index(name: Seq<char>) -> Option<int> {
    match last_index_of(name, '.') {
        None => None,
        Some(i) => if i == 0 {
            None
        } else {
            Some(i)
        },
    }
}

/// The final extension of a name: what follows the last dot.
pub open spec fn ext_of(name: Seq<char>) -> Option<Seq<char>> {
    match ext_split_index(name) {
        None => None,
        Some(i) => Some(name.skip(i + 1)),
    }
}

/// The name without its final extension.
pub open spec fn stem_of(name: Seq<char>) -> Seq<char> {
    match ext_split_index(name) {
        None => name,
        Some(i) => name.take(i),
    }
}

/// A name is its stem, then a dot, then its extension — or just its stem.
pub proof fn lemma_stem_ext_glue(name: Seq<char>)
    ensures
        match ext_of(name) {
            Some(e) => name =~= stem_of(name).push('.') + e,
            None => name == stem_of(name),
        },
{
    lemma_last_index_of(name, '.');
}

/// Splits a name into its stem and, when one exists, its final extension.
pub fn split_name(name: &str) -> (r: (String, Option<String>))
    ensures
        r.0@ == stem_of(name@),
        match r.1 {
            Some(e) => ext_of(name@) == Some(e@),
            None => ext_of(name@) is None,
        },
{
    let len = name.unicode_len();
    proof {
        lemma_last_index_of(name@, '.');
    }
    match find_last_char(name, '.') {
        Some(i) if i > 0 => {
            let stem = name.substring_char(0, i).to_owned();
            let ext = name.substring_char(i + 1, len).to_owned();
            (stem, Some(ext))
        },
        _ => (name.to_owned(), None),
    }
}

/// The entry name at the end of a path: what follows the last separator.
pub open spec fn basename_of(p: Seq<char>) -> Seq<char> {
    match last_index_of(p, '/') {
        None => p,
        Some(i) => p.skip(i + 1),
    }
}

/// Base name of a path.
pub fn basename(path: &str) -> (r: String)
    ensures
        r@ == basename_of(path@),
{
    let len = path.unicode_len();
    proof {
        lemma_last_index_of(path@, '/');
    }
    match find_last_char(path, '/') {
        Some(i) => path.substring_char(i + 1, len).to_owned(),
        None => path.to_owned(),
    }
}

/// A directory path extended by one entry name. A trailing separator on the
/// directory is not doubled.
pub open spec fn join_of(dir: Seq<char>, name: Seq<char>) -> Seq<char> {
    if dir.len() > 0 && dir[dir.len() - 1] == '/' {
        dir + name
    } else {
        dir.push('/') + name
    }
}

/// Joins a directory path and an entry name.
pub fn join_path(dir: &str, name: &str) -> (r: String)
    ensures
        r@ == join_of(dir@, name@),
{
    let dlen = dir.unicode_len();
    let mut out = dir.to_owned();
    if !(dlen > 0 && dir.get_char(dlen - 1) == '/') {
        out.append("/");
        proof {
            reveal_strlit("/");
            assert(out@ =~= dir@.push('/'));
        }
    }
    out.append(name);
    out
}

} // verus!
