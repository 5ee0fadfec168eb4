//! The tree scanner: turns a raw directory listing, read from disk into plain
//! values, into the curated view the editor shows — hidden entries dropped,
//! files filtered by an extension allow-set, and every sibling list ordered
//! with directories first and names compared case-insensitively.
use vstd::prelude::*;
use vstd::multiset::Multiset;

use crate::text::eq_ci;
use crate::text::ext_of;
use crate::text::join_of;
use crate::text::lemma_lex_le_total;
use crate::text::lemma_lex_le_trans;
use crate::text::lex_le;

verus! {

broadcast use
    vstd::seq_lib::group_to_multiset_ensures,
    vstd::multiset::group_multiset_axioms,
;

/// One filesystem entry as the caller read it from disk, before any
/// filtering. For a file, `children` is empty; for a directory whose
/// contents could not be read, the caller substitutes an empty list, so the
/// entry still appears in the tree, childless.
pub struct RawEntry {
    pub name: String,
    pub is_directory: bool,
    pub children: Vec<RawEntry>,
}

/// One entry of the curated tree. `children` is present exactly for
/// directories; a directory whose contents could not be read keeps an empty
/// children list.
pub struct TreeNode {
    pub name: String,
    pub path: String,
    pub is_directory: bool,
    pub children: Option<Vec<TreeNode>>,
}

/// A hidden name: one that begins with a dot.
pub open spec fn hidden(name: Seq<char>) -> bool {
    name.len() > 0 && name[0] == '.'
}

/// The extension is a member of the allow-set, up to ASCII case.
pub open spec fn ext_allowed(e: Seq<char>, allowed: Seq<Seq<char>>) -> bool {
    exists|i: int| 0 <= i < allowed.len() && eq_ci(e, allowed[i])
}

/// A file belongs in the tree: not hidden, and its extension is allowed.
/// A file without an extension never appears.
pub open spec fn file_kept(name: Seq<char>, allowed: Seq<Seq<char>>) -> bool {
    &&& !hidden(name)
    &&& match ext_of(name) {
        Some(e) => ext_allowed(e, allowed),
        None => false,
    }
}

/// An entry survives the scan filter: directories whenever they are not
/// hidden, files when their extension is allowed.
pub open spec fn keep_entry(r: RawEntry, allowed: Seq<Seq<char>>) -> bool {
    if r.is_directory {
        !hidden(r.name@)
    } else {
        file_kept(r.name@, allowed)
    }
}

/// Sibling order: directories before files, and within each group the
/// case-insensitive lexicographic order of names.
pub open spec fn node_le(a: TreeNode, b: TreeNode) -> bool {
    ||| (a.is_directory && !b.is_directory)
    ||| (a.is_directory == b.is_directory && lex_le(a.name@, b.name@))
}

/// A sibling list in scan order.
pub open spec fn sorted_nodes(s: Seq<TreeNode>) -> bool {
    forall|i: int, j: int| 0 <= i < j < s.len() ==> node_le(s[i], s[j])
}

/// Any two nodes are comparable under the sibling order.
pub proof fn lemma_node_le_total(a: TreeNode, b: TreeNode)
    ensures
        node_le(a, b) || node_le(b, a),
{
    lemma_lex_le_total(a.name@, b.name@);
}

/// The sibling order is transitive.
pub proof fn lemma_node_le_trans(a: TreeNode, b: TreeNode, c: TreeNode)
    requires
        node_le(a, b),
        node_le(b, c),
    ensures
        node_le(a, c),
{
    if a.is_directory == b.is_directory && b.is_directory == c.is_directory {
        lemma_lex_le_trans(a.name@, b.name@, c.name@);
    }
}

/// Removing one occurrence and putting it back leaves a multiset unchanged.
proof fn lemma_multiset_remove_insert(m1: Multiset<TreeNode>, m2: Multiset<TreeNode>, x: TreeNode)
    requires
        m1.contains(x),
        m2 == m1.remove(x),
    ensures
        m1 == m2.insert(x),
{
    assert(m1 =~= m2.insert(x));
}

/// Whether `a` sorts no later than `b` among siblings.
pub fn node_le_exec(a: &TreeNode, b: &TreeNode) -> (r: bool)
    ensures
        r == node_le(*a, *b),
{
    if a.is_directory && !b.is_directory {
        true
    } else if a.is_directory == b.is_directory {
        crate::text::lex_le_str(a.name.as_str(), b.name.as_str())
    } else {
        false
    }
}

/// Reorders a sibling list into scan order: an ordered permutation of the
/// input.
pub fn sort_siblings(v: Vec<TreeNode>) -> (out: Vec<TreeNode>)
    ensures
        sorted_nodes(out@),
        out@.to_multiset() == v@.to_multiset(),
        out@.len() == v@.len(),
{
    let mut rem = v;
    let ghost orig = rem@;
    let mut out: Vec<TreeNode> = Vec::new();
    proof {
        assert(out@.to_multiset().add(rem@.to_multiset()) =~= orig.to_multiset());
    }
    while rem.len() > 0
        invariant
            sorted_nodes(out@),
            out@.to_multiset().add(rem@.to_multiset()) == orig.to_multiset(),
            out@.len() + rem@.len() == orig.len(),
        decreases rem.len(),
    {
        let ghost rem0 = rem@;
        let ghost out0 = out@;
        let x = rem.remove(0);
        proof {
            assert(rem0.remove(0) =~= rem@);
            assert(rem0[0] == x);
            assert(rem0.contains(x));
            assert(rem0.to_multiset().count(x) > 0);
            assert(rem0.remove(0).to_multiset() == rem0.to_multiset().remove(x));
            lemma_multiset_remove_insert(rem0.to_multiset(), rem@.to_multiset(), x);
        }
        let mut j: usize = 0;
        while j < out.len() && node_le_exec(&out[j], &x)
            invariant
                j <= out@.len(),
                out@ == out0,
                forall|k: int| 0 <= k < j ==> node_le(out0[k], x),
            decreases out@.len() - j,
        {
            j = j + 1;
        }
        proof {
            if (j as int) < out0.len() {
                lemma_node_le_total(x, out0[j as int]);
            }
        }
        let ghost jj = j as int;
        out.insert(j, x);
        proof {
            assert(out@.remove(jj) =~= out0);
            assert(out@[jj] == x);
            assert(out@.contains(x));
            assert(out@.to_multiset().count(x) > 0);
            assert(out@.remove(jj).to_multiset() == out@.to_multiset().remove(x));
            lemma_multiset_remove_insert(out@.to_multiset(), out0.to_multiset(), x);
            assert forall|p: int, q: int| 0 <= p < q < out@.len() implies node_le(
                out@[p],
                out@[q],
            ) by {
                if p < jj && q < jj {
                    assert(node_le(out0[p], out0[q]));
                } else if p < jj && q == jj {
                    assert(node_le(out0[p], x));
                } else if p < jj && q > jj {
                    assert(node_le(out0[p], out0[q - 1]));
                } else if p == jj {
                    if q - 1 > jj - 1 && jj < out0.len() {
                        assert(node_le(x, out0[jj]));
                        if q - 1 > jj {
                            assert(node_le(out0[jj], out0[q - 1]));
                            lemma_node_le_trans(x, out0[jj], out0[q - 1]);
                        }
                    }
                } else {
                    assert(node_le(out0[p - 1], out0[q - 1]));
                }
            }
            assert(out@.to_multiset().add(rem@.to_multiset()) =~= orig.to_multiset());
        }
    }
    proof {
        assert(rem@.to_multiset().len() == 0);
        assert(out@.to_multiset().add(rem@.to_multiset()) =~= out@.to_multiset());
    }
    out
}

/// Nesting depth of one raw entry.
pub open spec fn entry_height(r: RawEntry) -> nat
    decreases r, 1int,
{
    1 + level_height(r.children@)
}

/// Greatest nesting depth among a raw sibling list.
pub open spec fn level_height(s: Seq<RawEntry>) -> nat
    decreases s, 0int,
{
    if s.len() == 0 {
        0
    } else if entry_height(s[0]) > level_height(s.drop_first()) {
        entry_height(s[0])
    } else {
        level_height(s.drop_first())
    }
}

/// Every entry of a list is at most as deep as the list.
pub proof fn lemma_level_height(s: Seq<RawEntry>, i: int)
    requires
        0 <= i < s.len(),
    ensures
        entry_height(s[i]) <= level_height(s),
    decreases s.len(),
{
    if i > 0 {
        lemma_level_height(s.drop_first(), i - 1);
    }
}

/// The scanned node for one kept raw entry: same name and type, the path is
/// the parent path extended by the name, and for a directory the children are
/// a scan of the raw children.
pub open spec fn entry_matches(
    parent: Seq<char>,
    r: RawEntry,
    n: TreeNode,
    allowed: Seq<Seq<char>>,
) -> bool
    decreases r, 0int,
{
    &&& n.name@ == r.name@
    &&& n.path@ == join_of(parent, r.name@)
    &&& n.is_directory == r.is_directory
    &&& if r.is_directory {
        match n.children {
            Some(cs) => level_matches(join_of(parent, r.name@), r.children@, cs@, allowed),
            None => false,
        }
    } else {
        n.children is None
    }
}

/// The nodes for one raw sibling list before ordering: one node per kept
/// entry, in the raw order, filtered entries gone.
pub open spec fn level_unsorted_matches(
    parent: Seq<char>,
    raws: Seq<RawEntry>,
    u: Seq<TreeNode>,
    allowed: Seq<Seq<char>>,
) -> bool
    decreases raws, 1int,
{
    if raws.len() == 0 {
        u.len() == 0
    } else if keep_entry(raws[0], allowed) {
        &&& u.len() > 0
        &&& entry_matches(parent, raws[0], u[0], allowed)
        &&& level_unsorted_matches(parent, raws.drop_first(), u.drop_first(), allowed)
    } else {
        level_unsorted_matches(parent, raws.drop_first(), u, allowed)
    }
}

/// What `scan_entries` returns for one raw sibling list: an ordered
/// permutation of the kept entries' nodes.
pub open spec fn level_matches(
    parent: Seq<char>,
    raws: Seq<RawEntry>,
    out: Seq<TreeNode>,
    allowed: Seq<Seq<char>>,
) -> bool
    decreases raws, 2int,
{
    exists|u: Seq<TreeNode>|
        #![trigger u.to_multiset()]
        (level_unsorted_matches(parent, raws, u, allowed) && sorted_nodes(out) && out.to_multiset()
            == u.to_multiset())
}

/// An ordered permutation of an unsorted matching is a scan result.
proof fn lemma_level_matches_intro(
    parent: Seq<char>,
    raws: Seq<RawEntry>,
    u: Seq<TreeNode>,
    out: Seq<TreeNode>,
    allowed: Seq<Seq<char>>,
)
    requires
        level_unsorted_matches(parent, raws, u, allowed),
        sorted_nodes(out),
        out.to_multiset() == u.to_multiset(),
    ensures
        level_matches(parent, raws, out, allowed),
{
    assert(level_unsorted_matches(parent, raws, u, allowed) && sorted_nodes(out)
        && out.to_multiset() == u.to_multiset());
}

/// Unsorted matchings of two lists concatenate.
proof fn lemma_level_unsorted_append(
    parent: Seq<char>,
    r1: Seq<RawEntry>,
    r2: Seq<RawEntry>,
    u1: Seq<TreeNode>,
    u2: Seq<TreeNode>,
    allowed: Seq<Seq<char>>,
)
    requires
        level_unsorted_matches(parent, r1, u1, allowed),
        level_unsorted_matches(parent, r2, u2, allowed),
    ensures
        level_unsorted_matches(parent, r1 + r2, u1 + u2, allowed),
    decreases r1.len(),
{
    if r1.len() == 0 {
        assert(r1 + r2 =~= r2);
        assert(u1 + u2 =~= u2);
    } else {
        assert((r1 + r2)[0] == r1[0]);
        assert((r1 + r2).drop_first() =~= r1.drop_first() + r2);
        if keep_entry(r1[0], allowed) {
            lemma_level_unsorted_append(parent, r1.drop_first(), r2, u1.drop_first(), u2, allowed);
            assert((u1 + u2)[0] == u1[0]);
            assert((u1 + u2).drop_first() =~= u1.drop_first() + u2);
        } else {
            lemma_level_unsorted_append(parent, r1.drop_first(), r2, u1, u2, allowed);
        }
    }
}

/// The name begins with a dot.
fn starts_with_dot(name: &str) -> (r: bool)
    ensures
        r == hidden(name@),
{
    let len = name.unicode_len();
    len > 0 && name.get_char(0) == '.'
}

/// The name's extension, if it has one, is in the allow-set, compared
/// case-insensitively.
pub fn extension_allowed(name: &str, allowed: &Vec<String>) -> (r: bool)
    ensures
        r == match ext_of(name@) {
            Some(e) => ext_allowed(e, allowed.deep_view()),
            None => false,
        },
{
    let len = name.unicode_len();
    proof {
        crate::text::lemma_last_index_of(name@, '.');
    }
    match crate::text::find_last_char(name, '.') {
        Some(i) => {
            if i > 0 {
                let e = name.substring_char(i + 1, len);
                proof {
                    assert(e@ =~= name@.skip(i + 1));
                    assert(ext_of(name@) == Some(name@.skip(i + 1)));
                }
                let mut j: usize = 0;
                while j < allowed.len()
                    invariant
                        j <= allowed@.len(),
                        e@ == name@.skip(i + 1),
                        ext_of(name@) == Some(e@),
                        forall|k: int| 0 <= k < j ==> !eq_ci(e@, allowed.deep_view()[k]),
                    decreases allowed@.len() - j,
                {
                    proof {
                        assert(allowed.deep_view()[j as int] == allowed@[j as int]@);
                    }
                    if crate::text::str_eq_ci(e, allowed[j].as_str()) {
                        proof {
                            assert(eq_ci(e@, allowed.deep_view()[j as int]));
                        }
                        return true;
                    }
                    j = j + 1;
                }
                proof {
                    assert(!ext_allowed(e@, allowed.deep_view()));
                }
                false
            } else {
                false
            }
        },
        None => false,
    }
}

/// Builds the curated tree for one directory level that was read from disk
/// as `raws`, recursively: hidden entries and files whose extension is not
/// allowed are dropped, every kept entry's path is `parent` extended by its
/// name, and every sibling list comes out in scan order.
pub fn scan_entries(parent: &str, raws: &Vec<RawEntry>, allowed: &Vec<String>) -> (out: Vec<
    TreeNode,
>)
    ensures
        level_matches(parent@, raws@, out@, allowed.deep_view()),
    decreases level_height(raws@),
{
    let ghost av = allowed.deep_view();
    let mut u: Vec<TreeNode> = Vec::new();
    let mut i: usize = 0;
    proof {
        assert(raws@.take(0) =~= Seq::<RawEntry>::empty());
    }
    while i < raws.len()
        invariant
            i <= raws@.len(),
            av == allowed.deep_view(),
            level_unsorted_matches(parent@, raws@.take(i as int), u@, av),
        decreases raws@.len() - i,
    {
        let ghost u0 = u@;
        let r = &raws[i];
        let is_hidden = starts_with_dot(r.name.as_str());
        let keep = !is_hidden && (r.is_directory || extension_allowed(r.name.as_str(), allowed));
        proof {
            assert(keep == keep_entry(raws@[i as int], av));
        }
        if keep {
            let path = crate::text::join_path(parent, r.name.as_str());
            let node = if r.is_directory {
                proof {
                    lemma_level_height(raws@, i as int);
                }
                let kids = scan_entries(path.as_str(), &r.children, allowed);
                TreeNode {
                    name: r.name.clone(),
                    path,
                    is_directory: true,
                    children: Some(kids),
                }
            } else {
                TreeNode { name: r.name.clone(), path, is_directory: false, children: None }
            };
            proof {
                assert(entry_matches(parent@, raws@[i as int], node, av));
            }
            u.push(node);
            proof {
                let single = seq![raws@[i as int]];
                assert(single[0] == raws@[i as int]);
                assert(keep_entry(single[0], av));
                assert(seq![node][0] == node);
                assert(single.drop_first() =~= Seq::<RawEntry>::empty());
                assert(seq![node].drop_first() =~= Seq::<TreeNode>::empty());
                assert(level_unsorted_matches(
                    parent@,
                    Seq::<RawEntry>::empty(),
                    Seq::<TreeNode>::empty(),
                    av,
                ));
                assert(level_unsorted_matches(parent@, single, seq![node], av));
                lemma_level_unsorted_append(parent@, raws@.take(i as int), single, u0, seq![node], av);
                assert(raws@.take(i + 1) =~= raws@.take(i as int) + single);
                assert(u@ =~= u0 + seq![node]);
            }
        } else {
            proof {
                let single = seq![raws@[i as int]];
                assert(single[0] == raws@[i as int]);
                assert(!keep_entry(single[0], av));
                assert(single.drop_first() =~= Seq::<RawEntry>::empty());
                assert(level_unsorted_matches(
                    parent@,
                    Seq::<RawEntry>::empty(),
                    Seq::<TreeNode>::empty(),
                    av,
                ));
                assert(level_unsorted_matches(parent@, single, Seq::<TreeNode>::empty(), av));
                lemma_level_unsorted_append(
                    parent@,
                    raws@.take(i as int),
                    single,
                    u0,
                    Seq::<TreeNode>::empty(),
                    av,
                );
                assert(raws@.take(i + 1) =~= raws@.take(i as int) + single);
                assert(u@ =~= u0 + Seq::<TreeNode>::empty());
            }
        }
        i = i + 1;
    }
    proof {
        assert(raws@.take(raws@.len() as int) =~= raws@);
    }
    let ghost uv = u@;
    let out = sort_siblings(u);
    proof {
        lemma_level_matches_intro(parent@, raws@, uv, out@, av);
    }
    out
}

/// The richest configured allow-set: markdown documents and image assets.
pub open spec fn default_exts() -> Seq<Seq<char>> {
    seq!["md"@, "markdown"@, "png"@, "jpg"@, "jpeg"@, "gif"@, "svg"@, "webp"@]
}

/// The default allow-set as a value the scanner takes.
pub fn default_allowed_extensions() -> (v: Vec<String>)
    ensures
        v.deep_view() == default_exts(),
{
    let mut v: Vec<String> = Vec::new();
    v.push(String::from_str("md"));
    v.push(String::from_str("markdown"));
    v.push(String::from_str("png"));
    v.push(String::from_str("jpg"));
    v.push(String::from_str("jpeg"));
    v.push(String::from_str("gif"));
    v.push(String::from_str("svg"));
    v.push(String::from_str("webp"));
    proof {
        assert(v.deep_view() =~= default_exts());
    }
    v
}

/// Whether a file of this name belongs in the tree under the default
/// allow-set: its final extension, compared case-insensitively, is a
/// markdown or image extension. A name without an extension, or with a dot
/// only in first position, has none.
pub fn has_allowed_extension(filename: &str) -> (r: bool)
    ensures
        r == match ext_of(filename@) {
            Some(e) => ext_allowed(e, default_exts()),
            None => false,
        },
{
    let allowed = default_allowed_extensions();
    extension_allowed(filename, &allowed)
}

/// A path that names an entry: nonempty, without a trailing separator.
pub open spec fn clean_path(p: Seq<char>) -> bool {
    p.len() > 0 && p[p.len() - 1] != '/'
}

/// An entry name as a directory listing yields it: nonempty and without a
/// separator.
pub open spec fn clean_name(n: Seq<char>) -> bool {
    n.len() > 0 && !n.contains('/')
}

/// Every name of a raw entry and of its descendants is clean.
pub open spec fn entry_clean(r: RawEntry) -> bool
    decreases r, 1int,
{
    clean_name(r.name@) && entries_clean(r.children@)
}

/// Every name of a raw sibling list, recursively, is clean.
pub open spec fn entries_clean(s: Seq<RawEntry>) -> bool
    decreases s, 0int,
{
    forall|i: int| 0 <= i < s.len() ==> entry_clean(#[trigger] s[i])
}

/// Joining a clean path and a clean name yields a clean path whose suffix
/// after the path is the separator and the name.
pub proof fn lemma_join_clean(p: Seq<char>, n: Seq<char>)
    requires
        clean_path(p),
        clean_name(n),
    ensures
        clean_path(join_of(p, n)),
        join_of(p, n).len() == p.len() + 1 + n.len(),
        join_of(p, n).take(p.len() as int) == p,
        join_of(p, n).skip(p.len() as int) == seq!['/'] + n,
{
    let j = join_of(p, n);
    assert(j == p.push('/') + n);
    assert(j[j.len() - 1] == n[n.len() - 1]);
    assert(n[n.len() - 1] != '/') by {
        assert(n.contains(n[n.len() - 1]));
    }
    assert(j.take(p.len() as int) =~= p);
    assert(j.skip(p.len() as int) =~= seq!['/'] + n);
}

/// One tree node of a scan result is well formed: its name is not hidden,
/// a directory carries a well-formed child list, and a file carries an
/// allowed extension and no child list.
pub open spec fn node_ok(n: TreeNode, allowed: Seq<Seq<char>>) -> bool
    decreases n, 1int,
{
    &&& !hidden(n.name@)
    &&& match n.children {
        Some(cs) => n.is_directory && nodes_ok(cs@, allowed),
        None => !n.is_directory && file_kept(n.name@, allowed),
    }
}

/// A sibling list of a scan result is well formed: in scan order, every
/// node well formed, recursively.
pub open spec fn nodes_ok(s: Seq<TreeNode>, allowed: Seq<Seq<char>>) -> bool
    decreases s, 2int,
{
    &&& sorted_nodes(s)
    &&& forall|j: int| 0 <= j < s.len() ==> node_ok(#[trigger] s[j], allowed)
}

/// The raw entry behind position `k` of an unsorted matching.
proof fn find_raw_for(
    parent: Seq<char>,
    raws: Seq<RawEntry>,
    u: Seq<TreeNode>,
    allowed: Seq<Seq<char>>,
    k: int,
) -> (i: int)
    requires
        level_unsorted_matches(parent, raws, u, allowed),
        0 <= k < u.len(),
    ensures
        0 <= i < raws.len(),
        keep_entry(raws[i], allowed),
        entry_matches(parent, raws[i], u[k], allowed),
    decreases raws.len(),
{
    if keep_entry(raws[0], allowed) {
        if k == 0 {
            0
        } else {
            let i0 = find_raw_for(parent, raws.drop_first(), u.drop_first(), allowed, k - 1);
            assert(u.drop_first()[k - 1] == u[k]);
            assert(raws.drop_first()[i0] == raws[i0 + 1]);
            i0 + 1
        }
    } else {
        let i0 = find_raw_for(parent, raws.drop_first(), u, allowed, k);
        assert(raws.drop_first()[i0] == raws[i0 + 1]);
        i0 + 1
    }
}

/// The node that an unsorted matching holds for kept raw entry `i`.
proof fn find_node_for(
    parent: Seq<char>,
    raws: Seq<RawEntry>,
    u: Seq<TreeNode>,
    allowed: Seq<Seq<char>>,
    i: int,
) -> (k: int)
    requires
        level_unsorted_matches(parent, raws, u, allowed),
        0 <= i < raws.len(),
        keep_entry(raws[i], allowed),
    ensures
        0 <= k < u.len(),
        entry_matches(parent, raws[i], u[k], allowed),
    decreases raws.len(),
{
    if i == 0 {
        0
    } else {
        assert(raws.drop_first()[i - 1] == raws[i]);
        if keep_entry(raws[0], allowed) {
            let k0 = find_node_for(parent, raws.drop_first(), u.drop_first(), allowed, i - 1);
            assert(u.drop_first()[k0] == u[k0 + 1]);
            k0 + 1
        } else {
            find_node_for(parent, raws.drop_first(), u, allowed, i - 1)
        }
    }
}

/// A scan result never holds a hidden name at any depth, keeps a file only
/// with an allowed extension, and orders every sibling list with directories
/// first and names non-decreasing case-insensitively.
pub proof fn lemma_scan_well_formed(
    parent: Seq<char>,
    raws: Seq<RawEntry>,
    out: Seq<TreeNode>,
    allowed: Seq<Seq<char>>,
)
    requires
        level_matches(parent, raws, out, allowed),
    ensures
        nodes_ok(out, allowed),
    decreases raws,
{
    let u = choose|u: Seq<TreeNode>|
        #![trigger u.to_multiset()]
        (level_unsorted_matches(parent, raws, u, allowed) && sorted_nodes(out)
            && out.to_multiset() == u.to_multiset());
    assert forall|j: int| 0 <= j < out.len() implies node_ok(#[trigger] out[j], allowed) by {
        assert(out.contains(out[j]));
        assert(out.to_multiset().count(out[j]) > 0);
        assert(u.contains(out[j]));
        let k = choose|k: int| 0 <= k < u.len() && u[k] == out[j];
        let i = find_raw_for(parent, raws, u, allowed, k);
        assert(entry_matches(parent, raws[i], out[j], allowed));
        if raws[i].is_directory {
            let cs = out[j].children->Some_0;
            assert(decreases_to!(raws => raws[i].children@));
            lemma_scan_well_formed(join_of(parent, raws[i].name@), raws[i].children@, cs@, allowed);
        }
    }
}

/// A node's bookkeeping fields hold together: its name is nonempty, its
/// path is its parent's path extended by its name, and the same holds of
/// its children beneath its own path.
pub open spec fn node_paths_ok(parent: Seq<char>, n: TreeNode) -> bool
    decreases n, 1int,
{
    &&& n.name@.len() > 0
    &&& n.path@ == join_of(parent, n.name@)
    &&& match n.children {
        Some(cs) => tree_paths_ok(n.path@, cs@),
        None => true,
    }
}

/// Every node of a sibling list carries consistent paths, recursively.
pub open spec fn tree_paths_ok(parent: Seq<char>, s: Seq<TreeNode>) -> bool
    decreases s, 2int,
{
    forall|j: int| 0 <= j < s.len() ==> node_paths_ok(parent, #[trigger] s[j])
}

/// When the listing's names are clean, every node of a scan result has a
/// nonempty name, and its path is the path of the level it stands in
/// extended by its own name, at every depth.
pub proof fn lemma_scan_paths(
    parent: Seq<char>,
    raws: Seq<RawEntry>,
    out: Seq<TreeNode>,
    allowed: Seq<Seq<char>>,
)
    requires
        level_matches(parent, raws, out, allowed),
        entries_clean(raws),
    ensures
        tree_paths_ok(parent, out),
    decreases raws,
{
    let u = choose|u: Seq<TreeNode>|
        #![trigger u.to_multiset()]
        (level_unsorted_matches(parent, raws, u, allowed) && sorted_nodes(out)
            && out.to_multiset() == u.to_multiset());
    assert forall|j: int| 0 <= j < out.len() implies node_paths_ok(parent, #[trigger] out[j]) by {
        assert(out.contains(out[j]));
        assert(out.to_multiset().count(out[j]) > 0);
        assert(u.contains(out[j]));
        let k = choose|k: int| 0 <= k < u.len() && u[k] == out[j];
        let i = find_raw_for(parent, raws, u, allowed, k);
        assert(entry_matches(parent, raws[i], out[j], allowed));
        assert(entry_clean(raws[i]));
        if raws[i].is_directory {
            let cs = out[j].children->Some_0;
            assert(decreases_to!(raws => raws[i].children@));
            lemma_scan_paths(join_of(parent, raws[i].name@), raws[i].children@, cs@, allowed);
        }
    }
}

/// Every node of a scan result stands for a kept raw entry of the listing:
/// nothing hidden, nothing filtered, nothing invented.
pub proof fn lemma_scan_sound(
    parent: Seq<char>,
    raws: Seq<RawEntry>,
    out: Seq<TreeNode>,
    allowed: Seq<Seq<char>>,
    j: int,
)
    requires
        level_matches(parent, raws, out, allowed),
        0 <= j < out.len(),
    ensures
        exists|i: int|
            #![trigger raws[i]]
            0 <= i < raws.len() && keep_entry(raws[i], allowed) && entry_matches(
                parent,
                raws[i],
                out[j],
                allowed,
            ),
{
    let u = choose|u: Seq<TreeNode>|
        #![trigger u.to_multiset()]
        (level_unsorted_matches(parent, raws, u, allowed) && sorted_nodes(out)
            && out.to_multiset() == u.to_multiset());
    assert(out.contains(out[j]));
    assert(out.to_multiset().count(out[j]) > 0);
    assert(u.contains(out[j]));
    let k = choose|k: int| 0 <= k < u.len() && u[k] == out[j];
    let i = find_raw_for(parent, raws, u, allowed, k);
    assert(0 <= i < raws.len() && keep_entry(raws[i], allowed) && entry_matches(
        parent,
        raws[i],
        out[j],
        allowed,
    ));
}

/// Every entry of the listing that passes the filter — a directory that is
/// not hidden, or a file with an allowed extension — appears in the scan
/// result.
pub proof fn lemma_scan_complete(
    parent: Seq<char>,
    raws: Seq<RawEntry>,
    out: Seq<TreeNode>,
    allowed: Seq<Seq<char>>,
    i: int,
)
    requires
        level_matches(parent, raws, out, allowed),
        0 <= i < raws.len(),
        keep_entry(raws[i], allowed),
    ensures
        exists|j: int|
            #![trigger out[j]]
            0 <= j < out.len() && entry_matches(parent, raws[i], out[j], allowed),
{
    let u = choose|u: Seq<TreeNode>|
        #![trigger u.to_multiset()]
        (level_unsorted_matches(parent, raws, u, allowed) && sorted_nodes(out)
            && out.to_multiset() == u.to_multiset());
    let k = find_node_for(parent, raws, u, allowed, i);
    assert(u.contains(u[k]));
    assert(u.to_multiset().count(u[k]) > 0);
    assert(out.contains(u[k]));
    let j = choose|j: int| 0 <= j < out.len() && out[j] == u[k];
    assert(0 <= j < out.len() && entry_matches(parent, raws[i], out[j], allowed));
}

} // verus!
