//! Planning of the mutation operations: the precondition checks of move and
//! duplicate, the collision-free name generation for duplicates, and the
//! step list of a recursive copy. Each function decides from plain facts
//! about the filesystem that the caller queried; the caller performs exactly
//! the mutation a plan allows, so every check happens before any change.
use vstd::prelude::*;

use crate::text::basename_of;
use crate::text::basename;
use crate::text::ext_of;
use crate::text::join_of;
use crate::text::join_path;
use crate::text::split_name;
use crate::text::stem_of;

verus! {

/// Why a scan request is refused before any directory is read.
#[derive(Clone, Copy, Debug, PartialEq, Eq, Structural)]
pub enum ScanError {
    /// The root path does not exist.
    NotFound,
    /// The root path exists but is not a directory.
    NotADirectory,
}

/// Why a move is refused or fails.
#[derive(Clone, Copy, Debug, PartialEq, Eq, Structural)]
pub enum MoveError {
    /// The source path does not exist.
    NotFound,
    /// The target is not an existing directory.
    NotADirectory,
    /// The target directory already holds an entry with the source's name;
    /// a move never overwrites.
    NameCollision,
    /// The source path has no usable base name, or the rename itself failed.
    MoveFailed,
}

/// Why a duplication is refused or fails.
#[derive(Clone, Copy, Debug, PartialEq, Eq, Structural)]
pub enum DuplicateError {
    /// The source path does not exist.
    NotFound,
    /// The target is not an existing directory.
    NotADirectory,
    /// The source name is unusable, or the copy itself failed.
    CopyFailed,
}

/// Admits a scan request: the root must exist and be a directory; the error
/// says which check failed.
pub fn check_scan_root(root_exists: bool, root_is_dir: bool) -> (r: Result<(), ScanError>)
    ensures
        r == if !root_exists {
            Err::<(), ScanError>(ScanError::NotFound)
        } else if !root_is_dir {
            Err::<(), ScanError>(ScanError::NotADirectory)
        } else {
            Ok::<(), ScanError>(())
        },
{
    if !root_exists {
        Err(ScanError::NotFound)
    } else if !root_is_dir {
        Err(ScanError::NotADirectory)
    } else {
        Ok(())
    }
}

/// The path a move would create: the target directory extended by the
/// source's base name. Nothing when the source path ends in a separator and
/// so carries no base name.
pub fn move_destination(source_path: &str, target_dir: &str) -> (r: Option<String>)
    ensures
        r is Some <==> basename_of(source_path@).len() > 0,
        r matches Some(d) ==> d@ == join_of(target_dir@, basename_of(source_path@)),
{
    let name = basename(source_path);
    if name.as_str().unicode_len() == 0 {
        None
    } else {
        Some(join_path(target_dir, name.as_str()))
    }
}

/// Admits a move, in the order the operation checks: the source must exist,
/// the target must be a directory, and the destination must be free — a move
/// never overwrites. All checks pass before any filesystem change, so a
/// refusal leaves source and target untouched.
pub fn check_move(source_exists: bool, target_is_dir: bool, destination_exists: bool) -> (r:
    Result<(), MoveError>)
    ensures
        r == if !source_exists {
            Err::<(), MoveError>(MoveError::NotFound)
        } else if !target_is_dir {
            Err::<(), MoveError>(MoveError::NotADirectory)
        } else if destination_exists {
            Err::<(), MoveError>(MoveError::NameCollision)
        } else {
            Ok::<(), MoveError>(())
        },
{
    if !source_exists {
        Err(MoveError::NotFound)
    } else if !target_is_dir {
        Err(MoveError::NotADirectory)
    } else if destination_exists {
        Err(MoveError::NameCollision)
    } else {
        Ok(())
    }
}

/// Admits a duplication: the source must exist and the target must be a
/// directory.
pub fn check_duplicate(source_exists: bool, target_is_dir: bool) -> (r: Result<
    (),
    DuplicateError,
>)
    ensures
        r == if !source_exists {
            Err::<(), DuplicateError>(DuplicateError::NotFound)
        } else if !target_is_dir {
            Err::<(), DuplicateError>(DuplicateError::NotADirectory)
        } else {
            Ok::<(), DuplicateError>(())
        },
{
    if !source_exists {
        Err(DuplicateError::NotFound)
    } else if !target_is_dir {
        Err(DuplicateError::NotADirectory)
    } else {
        Ok(())
    }
}

/// The message of a refused scan, naming the failed check and the offending
/// path.
pub fn scan_error_message(e: ScanError, path: &str) -> (r: String)
    ensures
        r@ == match e {
            ScanError::NotFound => "Path does not exist: "@ + path@,
            ScanError::NotADirectory => "Path is not a directory: "@ + path@,
        },
{
    let mut s = match e {
        ScanError::NotFound => String::from_str("Path does not exist: "),
        ScanError::NotADirectory => String::from_str("Path is not a directory: "),
    };
    s.append(path);
    s
}

/// The message of a refused or failed move, naming the check that failed
/// and the paths involved. For `MoveFailed` the caller appends what the
/// underlying rename reported.
pub fn move_error_message(e: MoveError, source_path: &str, target_dir: &str) -> (r: String)
    ensures
        r@ == match e {
            MoveError::NotFound => "Source does not exist: "@ + source_path@,
            MoveError::NotADirectory => "Target is not a directory: "@ + target_dir@,
            MoveError::NameCollision => "An item with the name '"@ + basename_of(source_path@)
                + "' already exists in the target directory"@,
            MoveError::MoveFailed => "Failed to move item"@,
        },
{
    match e {
        MoveError::NotFound => {
            let mut s = String::from_str("Source does not exist: ");
            s.append(source_path);
            s
        },
        MoveError::NotADirectory => {
            let mut s = String::from_str("Target is not a directory: ");
            s.append(target_dir);
            s
        },
        MoveError::NameCollision => {
            let name = basename(source_path);
            let mut s = String::from_str("An item with the name '");
            s.append(name.as_str());
            s.append("' already exists in the target directory");
            s
        },
        MoveError::MoveFailed => String::from_str("Failed to move item"),
    }
}

/// The message of a refused or failed duplication. For `CopyFailed` the
/// caller appends what the underlying copy reported.
pub fn duplicate_error_message(e: DuplicateError, source_path: &str, target_dir: &str) -> (r:
    String)
    ensures
        r@ == match e {
            DuplicateError::NotFound => "Source does not exist: "@ + source_path@,
            DuplicateError::NotADirectory => "Target is not a directory: "@ + target_dir@,
            DuplicateError::CopyFailed => "Failed to copy"@,
        },
{
    match e {
        DuplicateError::NotFound => {
            let mut s = String::from_str("Source does not exist: ");
            s.append(source_path);
            s
        },
        DuplicateError::NotADirectory => {
            let mut s = String::from_str("Target is not a directory: ");
            s.append(target_dir);
            s
        },
        DuplicateError::CopyFailed => String::from_str("Failed to copy"),
    }
}

/// The character for decimal digit `d`.
pub open spec fn digit_char(d: nat) -> char {
    if d == 0 {
        '0'
    } else if d == 1 {
        '1'
    } else if d == 2 {
        '2'
    } else if d == 3 {
        '3'
    } else if d == 4 {
        '4'
    } else if d == 5 {
        '5'
    } else if d == 6 {
        '6'
    } else if d == 7 {
        '7'
    } else if d == 8 {
        '8'
    } else {
        '9'
    }
}

/// The decimal digits of `n`, most significant first.
pub open spec fn dec_digits(n: nat) -> Seq<char>
    decreases n,
{
    if n < 10 {
        seq![digit_char(n)]
    } else {
        dec_digits(n / 10).push(digit_char(n % 10))
    }
}

/// One decimal digit as a string.
fn digit_str(d: usize) -> (r: &'static str)
    requires
        d < 10,
    ensures
        r@ == seq![digit_char(d as nat)],
{
    proof {
        reveal_strlit("0");
        reveal_strlit("1");
        reveal_strlit("2");
        reveal_strlit("3");
        reveal_strlit("4");
        reveal_strlit("5");
        reveal_strlit("6");
        reveal_strlit("7");
        reveal_strlit("8");
        reveal_strlit("9");
    }
    let r = if d == 0 {
        "0"
    } else if d == 1 {
        "1"
    } else if d == 2 {
        "2"
    } else if d == 3 {
        "3"
    } else if d == 4 {
        "4"
    } else if d == 5 {
        "5"
    } else if d == 6 {
        "6"
    } else if d == 7 {
        "7"
    } else {
        "8"
    };
    let r = if d == 9 {
        "9"
    } else {
        r
    };
    proof {
        assert(r@ =~= seq![digit_char(d as nat)]);
    }
    r
}

/// `n` written in decimal.
pub fn decimal_string(n: usize) -> (r: String)
    ensures
        r@ == dec_digits(n as nat),
    decreases n,
{
    if n < 10 {
        digit_str(n).to_owned()
    } else {
        let mut s = decimal_string(n / 10);
        s.append(digit_str(n % 10));
        proof {
            assert(s@ =~= dec_digits((n / 10) as nat).push(digit_char((n % 10) as nat)));
        }
        s
    }
}

/// Candidate `k` of the duplicate-name sequence for a source named `name`:
/// the name itself first, then the stem with " copy" added, then with
/// " copy k" added, the extension kept in place.
pub open spec fn dup_candidate(name: Seq<char>, k: nat) -> Seq<char> {
    if k == 0 {
        name
    } else {
        let tail = if k == 1 {
            " copy"@
        } else {
            " copy "@ + dec_digits(k)
        };
        match ext_of(name) {
            Some(e) => stem_of(name) + tail + seq!['.'] + e,
            None => stem_of(name) + tail,
        }
    }
}

/// Candidate `k` of the duplicate-name sequence.
pub fn duplicate_candidate(name: &str, k: usize) -> (r: String)
    ensures
        r@ == dup_candidate(name@, k as nat),
{
    if k == 0 {
        name.to_owned()
    } else {
        let (stem, ext) = split_name(name);
        let mut s = stem;
        s.append(" copy");
        if k > 1 {
            s.append(" ");
            let d = decimal_string(k);
            s.append(d.as_str());
            proof {
                reveal_strlit(" copy");
                reveal_strlit(" ");
                reveal_strlit(" copy ");
                assert(s@ =~= stem_of(name@) + (" copy "@ + dec_digits(k as nat)));
            }
        }
        match ext {
            Some(e) => {
                s.append(".");
                s.append(e.as_str());
                proof {
                    reveal_strlit(".");
                    assert(ext_of(name@) == Some(e@));
                    if k == 1 {
                        assert(s@ =~= stem_of(name@) + " copy"@ + seq!['.'] + e@);
                    } else {
                        assert(s@ =~= stem_of(name@) + (" copy "@ + dec_digits(k as nat))
                            + seq!['.'] + e@);
                    }
                }
                s
            },
            None => s,
        }
    }
}

/// One of the names is `s`.
pub open spec fn name_in(names: Seq<Seq<char>>, s: Seq<char>) -> bool {
    exists|i: int| 0 <= i < names.len() && names[i] == s
}

/// Whether `cand` is among the existing names.
fn contains_name(existing: &Vec<String>, cand: &String) -> (r: bool)
    ensures
        r == name_in(existing.deep_view(), cand@),
{
    let mut i: usize = 0;
    while i < existing.len()
        invariant
            i <= existing@.len(),
            forall|k: int| 0 <= k < i ==> existing.deep_view()[k] != cand@,
        decreases existing@.len() - i,
    {
        proof {
            assert(existing.deep_view()[i as int] == existing@[i as int]@);
        }
        if existing[i].eq(cand) {
            proof {
                assert(name_in(existing.deep_view(), cand@));
            }
            return true;
        }
        i = i + 1;
    }
    false
}

/// Among more pairwise distinct candidates than there are existing names,
/// some candidate is free.
proof fn lemma_free_candidate_exists(name: Seq<char>, ex: Seq<Seq<char>>, lo: nat, m: nat)
    requires
        lo <= m,
        m - lo > ex.len(),
    ensures
        exists|k: nat|
            #![trigger dup_candidate(name, k)]
            lo <= k < m && !name_in(ex, dup_candidate(name, k)),
    decreases ex.len(),
{
    let c = dup_candidate(name, lo);
    if !name_in(ex, c) {
        assert(lo <= lo < m && !name_in(ex, dup_candidate(name, lo)));
    } else {
        let i = choose|i: int| 0 <= i < ex.len() && ex[i] == c;
        let ex2 = ex.remove(i);
        lemma_free_candidate_exists(name, ex2, lo + 1, m);
        let k = choose|k: nat|
            #![trigger dup_candidate(name, k)]
            lo + 1 <= k < m && !name_in(ex2, dup_candidate(name, k));
        let ck = dup_candidate(name, k);
        if name_in(ex, ck) {
            let p = choose|p: int| 0 <= p < ex.len() && ex[p] == ck;
            lemma_dup_candidates_inj(name, lo, k);
            assert(p != i);
            if p < i {
                assert(ex2[p] == ex[p]);
                assert(name_in(ex2, ck));
            } else {
                assert(ex2[p - 1] == ex[p]);
                assert(name_in(ex2, ck));
            }
        }
        assert(lo <= k < m && !name_in(ex, dup_candidate(name, k)));
    }
}

/// `s` is the name a duplication into a directory with the given existing
/// names chooses: the first candidate of the sequence that is still free.
pub open spec fn first_free_candidate(
    name: Seq<char>,
    existing: Seq<Seq<char>>,
    s: Seq<char>,
) -> bool {
    exists|k: nat|
        #![trigger dup_candidate(name, k)]
        {
            &&& k < existing.len() + 2
            &&& s == dup_candidate(name, k)
            &&& !name_in(existing, s)
            &&& forall|j: nat| j < k ==> name_in(existing, dup_candidate(name, j))
        }
}

/// Chooses the destination name for a duplication: the first candidate of
/// the sequence — the source's own name, then "stem copy", then
/// "stem copy 2" and so on — that none of the existing names equals. The
/// candidates are pairwise distinct, so with more of them than existing
/// names the search always finds a free one.
pub fn choose_duplicate_name(name: &str, existing: &Vec<String>) -> (r: String)
    requires
        existing@.len() + 2 <= usize::MAX,
    ensures
        first_free_candidate(name@, existing.deep_view(), r@),
{
    let limit = existing.len() + 2;
    let mut k: usize = 0;
    while k < limit
        invariant
            limit == existing@.len() + 2,
            k <= limit,
            forall|j: nat| j < k ==> name_in(existing.deep_view(), dup_candidate(name@, j)),
        decreases limit - k,
    {
        let cand = duplicate_candidate(name, k);
        if !contains_name(existing, &cand) {
            proof {
                assert(cand@ == dup_candidate(name@, k as nat));
                assert(first_free_candidate(name@, existing.deep_view(), cand@));
            }
            return cand;
        }
        k = k + 1;
    }
    proof {
        assert(existing.deep_view().len() == existing@.len());
        lemma_free_candidate_exists(name@, existing.deep_view(), 0, limit as nat);
        let k0 = choose|k: nat|
            #![trigger dup_candidate(name@, k)]
            k < limit && !name_in(existing.deep_view(), dup_candidate(name@, k));
        assert(name_in(existing.deep_view(), dup_candidate(name@, k0)));
    }
    unreached()
}

/// A decimal rendering is never empty.
proof fn lemma_dec_digits_len(n: nat)
    ensures
        dec_digits(n).len() >= 1,
    decreases n,
{
    if n >= 10 {
        lemma_dec_digits_len(n / 10);
    }
}

/// Different numbers render to different digit strings.
proof fn lemma_dec_digits_inj(a: nat, b: nat)
    requires
        dec_digits(a) == dec_digits(b),
    ensures
        a == b,
    decreases a,
{
    lemma_dec_digits_len(a / 10);
    lemma_dec_digits_len(b / 10);
    if a < 10 && b < 10 {
        assert(dec_digits(a)[0] == digit_char(a));
        assert(dec_digits(b)[0] == digit_char(b));
    } else if a < 10 && b >= 10 {
        assert(dec_digits(a).len() == 1);
        assert(dec_digits(b).len() == dec_digits(b / 10).len() + 1);
    } else if a >= 10 && b < 10 {
        assert(dec_digits(b).len() == 1);
        assert(dec_digits(a).len() == dec_digits(a / 10).len() + 1);
    } else {
        let da = dec_digits(a);
        assert(da.last() == digit_char(a % 10));
        assert(da.last() == digit_char(b % 10));
        assert(a % 10 == b % 10);
        assert(da.drop_last() =~= dec_digits(a / 10));
        assert(da.drop_last() =~= dec_digits(b / 10));
        lemma_dec_digits_inj(a / 10, b / 10);
    }
}

/// Different positions of the candidate sequence carry different names.
pub proof fn lemma_dup_candidates_inj(name: Seq<char>, j: nat, k: nat)
    requires
        j != k,
    ensures
        dup_candidate(name, j) != dup_candidate(name, k),
{
    crate::text::lemma_stem_ext_glue(name);
    reveal_strlit(" copy");
    reveal_strlit(" copy ");
    let lo = if j < k {
        j
    } else {
        k
    };
    let hi = if j < k {
        k
    } else {
        j
    };
    lemma_dec_digits_len(lo);
    lemma_dec_digits_len(hi);
    if lo == 0 || lo == 1 || hi == 1 {
        assert(dup_candidate(name, lo).len() != dup_candidate(name, hi).len());
    } else {
        let stem = stem_of(name);
        let tail = " copy "@;
        let dl = dec_digits(lo);
        let dh = dec_digits(hi);
        let cl = dup_candidate(name, lo);
        let ch = dup_candidate(name, hi);
        if cl == ch {
            match ext_of(name) {
                Some(e) => {
                    assert(cl.len() == stem.len() + 6 + dl.len() + 1 + e.len());
                    assert(ch.len() == stem.len() + 6 + dh.len() + 1 + e.len());
                },
                None => {
                    assert(cl.len() == stem.len() + 6 + dl.len());
                    assert(ch.len() == stem.len() + 6 + dh.len());
                },
            }
            assert(dl.len() == dh.len());
            let base = stem.len() + tail.len();
            assert forall|x: int| 0 <= x < dl.len() implies dl[x] == dh[x] by {
                assert(cl[base + x] == dl[x]);
                assert(ch[base + x] == dh[x]);
            }
            assert(dl =~= dh);
            lemma_dec_digits_inj(lo, hi);
        }
    }
}

/// Appending one name to a list changes membership only by that name.
proof fn lemma_name_in_push(names: Seq<Seq<char>>, x: Seq<char>, s: Seq<char>)
    ensures
        name_in(names.push(x), s) <==> (name_in(names, s) || s == x),
{
    if name_in(names.push(x), s) {
        let i = choose|i: int| 0 <= i < names.push(x).len() && names.push(x)[i] == s;
        if i < names.len() {
            assert(names[i] == s);
            assert(name_in(names, s));
        } else {
            assert(names.push(x)[names.len() as int] == x);
        }
    }
    if name_in(names, s) {
        let i = choose|i: int| 0 <= i < names.len() && names[i] == s;
        assert(names.push(x)[i] == s);
        assert(name_in(names.push(x), s));
    }
    if s == x {
        assert(names.push(x)[names.len() as int] == s);
        assert(name_in(names.push(x), s));
    }
}

/// The first three duplicate candidates have three different lengths, so no
/// two of them are one name.
pub proof fn lemma_dup_candidates_distinct(name: Seq<char>)
    ensures
        dup_candidate(name, 0).len() == name.len(),
        dup_candidate(name, 1).len() == name.len() + 5,
        dup_candidate(name, 2).len() == name.len() + 7,
{
    crate::text::lemma_stem_ext_glue(name);
    reveal_strlit(" copy");
    reveal_strlit(" copy ");
    assert(dec_digits(2).len() == 1);
}

/// Duplicating one source three times into one directory that starts with
/// none of the first three candidates taken creates, in order, an entry
/// under the source's own name, one under "stem copy", and one under
/// "stem copy 2", the extension kept in place.
pub proof fn lemma_duplicate_sequence(
    name: Seq<char>,
    ex0: Seq<Seq<char>>,
    r1: Seq<char>,
    r2: Seq<char>,
    r3: Seq<char>,
)
    requires
        !name_in(ex0, dup_candidate(name, 0)),
        !name_in(ex0, dup_candidate(name, 1)),
        !name_in(ex0, dup_candidate(name, 2)),
        first_free_candidate(name, ex0, r1),
        first_free_candidate(name, ex0.push(r1), r2),
        first_free_candidate(name, ex0.push(r1).push(r2), r3),
    ensures
        r1 == dup_candidate(name, 0),
        r2 == dup_candidate(name, 1),
        r3 == dup_candidate(name, 2),
{
    lemma_dup_candidates_distinct(name);
    let c0 = dup_candidate(name, 0);
    let c1 = dup_candidate(name, 1);
    let c2 = dup_candidate(name, 2);
    let k1 = choose|k: nat|
        #![trigger dup_candidate(name, k)]
        {
            &&& k < ex0.len() + 2
            &&& r1 == dup_candidate(name, k)
            &&& !name_in(ex0, r1)
            &&& forall|j: nat| j < k ==> name_in(ex0, dup_candidate(name, j))
        };
    assert(k1 == 0) by {
        if k1 > 0 {
            assert(name_in(ex0, dup_candidate(name, 0)));
        }
    }
    let ex1 = ex0.push(r1);
    lemma_name_in_push(ex0, r1, c0);
    lemma_name_in_push(ex0, r1, c1);
    lemma_name_in_push(ex0, r1, c2);
    let k2 = choose|k: nat|
        #![trigger dup_candidate(name, k)]
        {
            &&& k < ex1.len() + 2
            &&& r2 == dup_candidate(name, k)
            &&& !name_in(ex1, r2)
            &&& forall|j: nat| j < k ==> name_in(ex1, dup_candidate(name, j))
        };
    assert(k2 == 1) by {
        if k2 == 0 {
            assert(name_in(ex1, c0));
        }
        if k2 > 1 {
            assert(name_in(ex1, dup_candidate(name, 1)));
        }
    }
    let ex2 = ex1.push(r2);
    lemma_name_in_push(ex1, r2, c0);
    lemma_name_in_push(ex1, r2, c1);
    lemma_name_in_push(ex1, r2, c2);
    let k3 = choose|k: nat|
        #![trigger dup_candidate(name, k)]
        {
            &&& k < ex2.len() + 2
            &&& r3 == dup_candidate(name, k)
            &&& !name_in(ex2, r3)
            &&& forall|j: nat| j < k ==> name_in(ex2, dup_candidate(name, j))
        };
    assert(k3 == 2) by {
        if k3 == 0 {
            assert(name_in(ex2, c0));
        }
        if k3 == 1 {
            assert(name_in(ex2, dup_candidate(name, 1)));
        }
        if k3 > 2 {
            assert(name_in(ex2, dup_candidate(name, 2)));
        }
    }
}

/// One step of a recursive copy: create the directory `dest`, or copy the
/// file `source` to `dest`. `source` names the entry the step stems from in
/// either case.
pub struct CopyStep {
    pub make_dir: bool,
    pub source: String,
    pub dest: String,
}

/// The step list of copying the entry at `src` to `dst`: a single file copy
/// for a file; for a directory, creating `dst` first and then copying every
/// child beneath it, in listing order, top-down.
pub open spec fn plan_matches(
    src: Seq<char>,
    dst: Seq<char>,
    is_dir: bool,
    children: Seq<crate::tree::RawEntry>,
    steps: Seq<CopyStep>,
) -> bool
    decreases children, 1int,
{
    if is_dir {
        &&& steps.len() >= 1
        &&& steps[0].make_dir
        &&& steps[0].source@ == src
        &&& steps[0].dest@ == dst
        &&& children_plans_match(src, dst, children, steps.drop_first())
    } else {
        &&& steps.len() == 1
        &&& !steps[0].make_dir
        &&& steps[0].source@ == src
        &&& steps[0].dest@ == dst
    }
}

/// The steps for a raw sibling list under `src`, copied beneath `dst`: a
/// plan for each child in order, concatenated.
pub open spec fn children_plans_match(
    src: Seq<char>,
    dst: Seq<char>,
    children: Seq<crate::tree::RawEntry>,
    steps: Seq<CopyStep>,
) -> bool
    decreases children, 0int,
{
    if children.len() == 0 {
        steps.len() == 0
    } else {
        exists|m: int|
            #![trigger steps.take(m)]
            {
                &&& 0 <= m <= steps.len()
                &&& plan_matches(
                    join_of(src, children[0].name@),
                    join_of(dst, children[0].name@),
                    children[0].is_directory,
                    children[0].children@,
                    steps.take(m),
                )
                &&& children_plans_match(src, dst, children.drop_first(), steps.skip(m))
            }
    }
}

/// A child's plan appended to a sibling list's plan is the plan of the list
/// extended by that child.
proof fn lemma_children_plans_append(
    src: Seq<char>,
    dst: Seq<char>,
    c1: Seq<crate::tree::RawEntry>,
    s1: Seq<CopyStep>,
    c: crate::tree::RawEntry,
    s2: Seq<CopyStep>,
)
    requires
        children_plans_match(src, dst, c1, s1),
        plan_matches(
            join_of(src, c.name@),
            join_of(dst, c.name@),
            c.is_directory,
            c.children@,
            s2,
        ),
    ensures
        children_plans_match(src, dst, c1.push(c), s1 + s2),
    decreases c1.len(),
{
    let all = s1 + s2;
    if c1.len() == 0 {
        assert(all.take(s2.len() as int) =~= s2);
        assert(all.skip(s2.len() as int) =~= Seq::<CopyStep>::empty());
        assert(c1.push(c)[0] == c);
        assert(c1.push(c).drop_first() =~= Seq::<crate::tree::RawEntry>::empty());
        assert(children_plans_match(
            src,
            dst,
            Seq::<crate::tree::RawEntry>::empty(),
            Seq::<CopyStep>::empty(),
        ));
        assert(children_plans_match(src, dst, c1.push(c), all));
    } else {
        let m0 = choose|m: int|
            #![trigger s1.take(m)]
            {
                &&& 0 <= m <= s1.len()
                &&& plan_matches(
                    join_of(src, c1[0].name@),
                    join_of(dst, c1[0].name@),
                    c1[0].is_directory,
                    c1[0].children@,
                    s1.take(m),
                )
                &&& children_plans_match(src, dst, c1.drop_first(), s1.skip(m))
            };
        lemma_children_plans_append(src, dst, c1.drop_first(), s1.skip(m0), c, s2);
        assert(c1.push(c)[0] == c1[0]);
        assert(c1.push(c).drop_first() =~= c1.drop_first().push(c));
        assert(all.take(m0) =~= s1.take(m0));
        assert(all.skip(m0) =~= s1.skip(m0) + s2);
        assert(children_plans_match(src, dst, c1.push(c), all));
    }
}

/// Every step of the list stays inside the copied subtree and preserves
/// relative paths: its source lies under `src`, and its destination is
/// `dst` extended by the same relative path.
pub open spec fn steps_mirror(src: Seq<char>, dst: Seq<char>, steps: Seq<CopyStep>) -> bool {
    forall|k: int|
        #![trigger steps[k]]
        0 <= k < steps.len() ==> {
            &&& steps[k].source@.len() >= src.len()
            &&& steps[k].source@.take(src.len() as int) == src
            &&& steps[k].dest@ == dst + steps[k].source@.skip(src.len() as int)
        }
}

/// A copy plan mirrors the source subtree: every step's destination is the
/// plan's destination root extended by the step's path relative to the
/// source root — same relative names on both sides.
pub proof fn lemma_plan_mirrors(
    src: Seq<char>,
    dst: Seq<char>,
    is_dir: bool,
    children: Seq<crate::tree::RawEntry>,
    steps: Seq<CopyStep>,
)
    requires
        plan_matches(src, dst, is_dir, children, steps),
        crate::tree::clean_path(src),
        crate::tree::clean_path(dst),
        crate::tree::entries_clean(children),
    ensures
        steps_mirror(src, dst, steps),
    decreases children, 1int,
{
    assert(steps[0].source@.take(src.len() as int) =~= src);
    assert(steps[0].dest@ =~= dst + steps[0].source@.skip(src.len() as int));
    if is_dir {
        lemma_children_mirror(src, dst, children, steps.drop_first());
        assert forall|k: int| 0 <= k < steps.len() implies {
            &&& #[trigger] steps[k].source@.len() >= src.len()
            &&& steps[k].source@.take(src.len() as int) == src
            &&& steps[k].dest@ == dst + steps[k].source@.skip(src.len() as int)
        } by {
            if k > 0 {
                assert(steps.drop_first()[k - 1] == steps[k]);
            }
        }
    }
}

/// The plan of a raw sibling list mirrors, step for step, beneath the
/// parent paths.
proof fn lemma_children_mirror(
    src: Seq<char>,
    dst: Seq<char>,
    children: Seq<crate::tree::RawEntry>,
    steps: Seq<CopyStep>,
)
    requires
        children_plans_match(src, dst, children, steps),
        crate::tree::clean_path(src),
        crate::tree::clean_path(dst),
        crate::tree::entries_clean(children),
    ensures
        steps_mirror(src, dst, steps),
    decreases children, 0int,
{
    if children.len() == 0 {
    } else {
        let c = children[0];
        let n = c.name@;
        let m = choose|m: int|
            #![trigger steps.take(m)]
            {
                &&& 0 <= m <= steps.len()
                &&& plan_matches(
                    join_of(src, n),
                    join_of(dst, n),
                    c.is_directory,
                    c.children@,
                    steps.take(m),
                )
                &&& children_plans_match(src, dst, children.drop_first(), steps.skip(m))
            };
        let csrc = join_of(src, n);
        let cdst = join_of(dst, n);
        assert(crate::tree::entry_clean(c));
        crate::tree::lemma_join_clean(src, n);
        crate::tree::lemma_join_clean(dst, n);
        lemma_plan_mirrors(csrc, cdst, c.is_directory, c.children@, steps.take(m));
        assert(crate::tree::entries_clean(children.drop_first())) by {
            assert(forall|i: int|
                0 <= i < children.drop_first().len() ==> children.drop_first()[i]
                    == children[i + 1]);
        }
        lemma_children_mirror(src, dst, children.drop_first(), steps.skip(m));
        assert forall|k: int| 0 <= k < steps.len() implies {
            &&& #[trigger] steps[k].source@.len() >= src.len()
            &&& steps[k].source@.take(src.len() as int) == src
            &&& steps[k].dest@ == dst + steps[k].source@.skip(src.len() as int)
        } by {
            if k < m {
                let t = steps.take(m)[k];
                assert(t == steps[k]);
                assert(t.source@.take(csrc.len() as int) == csrc);
                assert(t.dest@ == cdst + t.source@.skip(csrc.len() as int));
                assert(t.source@.take(src.len() as int) =~= src) by {
                    assert(forall|x: int|
                        0 <= x < src.len() ==> t.source@[x] == csrc[x] && csrc[x] == src[x]);
                }
                assert(t.dest@ =~= dst + t.source@.skip(src.len() as int)) by {
                    assert(t.source@.skip(src.len() as int) =~= csrc.skip(src.len() as int)
                        + t.source@.skip(csrc.len() as int));
                    assert(cdst =~= dst + csrc.skip(src.len() as int)) by {
                        assert(csrc.skip(src.len() as int) =~= seq!['/'] + n);
                        assert(cdst.skip(dst.len() as int) =~= seq!['/'] + n);
                        assert(cdst =~= dst + cdst.skip(dst.len() as int));
                    }
                    assert(dst + t.source@.skip(src.len() as int) =~= (dst + csrc.skip(
                        src.len() as int,
                    )) + t.source@.skip(csrc.len() as int));
                }
            } else {
                let t = steps.skip(m)[k - m];
                assert(t == steps[k]);
            }
        }
    }
}

/// Plans the copy of the entry at `source` to `dest`: for a file one copy
/// step, for a directory — its listed children handed in `children` — the
/// directory creation followed by the plans of all children, in order,
/// top-down. The caller performs the steps in order and reports any step's
/// failure as the copy failing.
pub fn copy_plan(
    source: &str,
    dest: &str,
    is_dir: bool,
    children: &Vec<crate::tree::RawEntry>,
) -> (steps: Vec<CopyStep>)
    ensures
        plan_matches(source@, dest@, is_dir, children@, steps@),
    decreases crate::tree::level_height(children@),
{
    let mut steps: Vec<CopyStep> = Vec::new();
    if !is_dir {
        steps.push(CopyStep { make_dir: false, source: source.to_owned(), dest: dest.to_owned() });
        return steps;
    }
    steps.push(CopyStep { make_dir: true, source: source.to_owned(), dest: dest.to_owned() });
    proof {
        assert(children@.take(0) =~= Seq::<crate::tree::RawEntry>::empty());
        assert(steps@.drop_first() =~= Seq::<CopyStep>::empty());
        assert(children_plans_match(source@, dest@, children@.take(0), steps@.drop_first()));
    }
    let mut i: usize = 0;
    while i < children.len()
        invariant
            i <= children@.len(),
            steps@.len() >= 1,
            steps@[0].make_dir,
            steps@[0].source@ == source@,
            steps@[0].dest@ == dest@,
            children_plans_match(source@, dest@, children@.take(i as int), steps@.drop_first()),
        decreases children@.len() - i,
    {
        let ghost steps0 = steps@;
        let c = &children[i];
        let csrc = join_path(source, c.name.as_str());
        let cdst = join_path(dest, c.name.as_str());
        proof {
            crate::tree::lemma_level_height(children@, i as int);
        }
        let mut sub = copy_plan(csrc.as_str(), cdst.as_str(), c.is_directory, &c.children);
        let ghost subv = sub@;
        steps.append(&mut sub);
        proof {
            lemma_children_plans_append(
                source@,
                dest@,
                children@.take(i as int),
                steps0.drop_first(),
                children@[i as int],
                subv,
            );
            assert(children@.take(i + 1) =~= children@.take(i as int).push(children@[i as int]));
            assert(steps@.drop_first() =~= steps0.drop_first() + subv);
        }
        i = i + 1;
    }
    proof {
        assert(children@.take(children@.len() as int) =~= children@);
    }
    steps
}

} // verus!
