//! The file tree: a flat list of changed files arranged into a hierarchy by
//! path segment, each level ordered folders-first and case-insensitively by
//! name, and the pre-order flattening that the display list shows.

use vstd::prelude::*;
use vstd::multiset::Multiset;
use crate::diff::{FileChange, status_name};
use crate::text::{lex_lt, lower_of, spec_split, split_str, str_eq, str_lt, to_lowercase};

verus! {

/// A node in the file tree.
#[derive(Debug)]
pub struct FileTreeNode {
    pub name: String,
    pub path: String,
    pub is_folder: bool,
    pub children: Vec<FileTreeNode>,
    pub status: Option<String>,
}

/// Ghost form of a tree node.
pub ghost struct FileTreeNodeView {
    pub name: Seq<char>,
    pub path: Seq<char>,
    pub is_folder: bool,
    pub children: Seq<FileTreeNodeView>,
    pub status: Option<Seq<char>>,
}

/// Ghost form of one tree node.
pub open spec fn node_view(n: FileTreeNode) -> FileTreeNodeView
    decreases n,
    via node_view_decreases
{
    FileTreeNodeView {
        name: n.name@,
        path: n.path@,
        is_folder: n.is_folder,
        children: nodes_view(n.children@),
        status: match n.status {
            Option::Some(s) => Option::Some(s@),
            Option::None => Option::None,
        },
    }
}

#[via_fn]
proof fn node_view_decreases(n: FileTreeNode) {
    broadcast use vstd::std_specs::vec::axiom_vec_decreases_to_view;

}

/// Ghost form of a node sequence.
pub open spec fn nodes_view(s: Seq<FileTreeNode>) -> Seq<FileTreeNodeView>
    decreases s,
    via nodes_view_decreases
{
    if s.len() == 0 {
        Seq::empty()
    } else {
        seq![node_view(s[0])] + nodes_view(s.drop_first())
    }
}

#[via_fn]
proof fn nodes_view_decreases(s: Seq<FileTreeNode>) {
    broadcast use vstd::seq::axiom_seq_index_decreases;
    broadcast use vstd::seq::axiom_seq_subrange_decreases;

}

/// The ghost form of a node sequence is its nodes' ghost forms, in place.
pub proof fn lemma_nodes_view(s: Seq<FileTreeNode>)
    ensures
        nodes_view(s).len() == s.len(),
        forall|i: int| 0 <= i < s.len() ==> #[trigger] nodes_view(s)[i] == node_view(s[i]),
    decreases s.len(),
{
    if s.len() > 0 {
        lemma_nodes_view(s.drop_first());
        assert forall|i: int| 0 <= i < s.len() implies #[trigger] nodes_view(s)[i] == node_view(
            s[i],
        ) by {
            if i > 0 {
                assert(nodes_view(s)[i] == nodes_view(s.drop_first())[i - 1]);
                assert(s.drop_first()[i - 1] == s[i]);
            }
        }
    }
}

// ---------------------------------------------------------------------------
// Display order of siblings
// ---------------------------------------------------------------------------

/// Folders sort before files.
pub open spec fn rank_of(is_folder: bool) -> int {
    if is_folder {
        0
    } else {
        1
    }
}

/// The strict display order of siblings: folders before files, then
/// case-insensitively by name, with the raw name deciding ties between
/// names that fold to the same lowercase form.
pub open spec fn node_lt(a: FileTreeNodeView, b: FileTreeNodeView) -> bool {
    ||| rank_of(a.is_folder) < rank_of(b.is_folder)
    ||| (rank_of(a.is_folder) == rank_of(b.is_folder) && (lex_lt(lower_of(a.name), lower_of(b.name))
        || (lower_of(a.name) == lower_of(b.name) && lex_lt(a.name, b.name))))
}

/// Siblings with different names always compare one way or the other.
pub proof fn lemma_node_lt_connected(a: FileTreeNodeView, b: FileTreeNodeView)
    requires
        a.name != b.name,
    ensures
        node_lt(a, b) || node_lt(b, a),
{
    if rank_of(a.is_folder) == rank_of(b.is_folder) {
        if !lex_lt(lower_of(a.name), lower_of(b.name)) && !lex_lt(
            lower_of(b.name),
            lower_of(a.name),
        ) {
            crate::text::lemma_lex_connected(lower_of(a.name), lower_of(b.name));
            if !lex_lt(a.name, b.name) && !lex_lt(b.name, a.name) {
                crate::text::lemma_lex_connected(a.name, b.name);
            }
        }
    }
}

/// The display order runs one way only.
pub proof fn lemma_node_lt_asymmetric(a: FileTreeNodeView, b: FileTreeNodeView)
    requires
        node_lt(a, b),
    ensures
        !node_lt(b, a),
{
    if rank_of(a.is_folder) == rank_of(b.is_folder) {
        if lex_lt(lower_of(a.name), lower_of(b.name)) {
            if lex_lt(lower_of(b.name), lower_of(a.name)) {
                crate::text::lemma_lex_transitive(
                    lower_of(a.name),
                    lower_of(b.name),
                    lower_of(a.name),
                );
                crate::text::lemma_lex_irreflexive(lower_of(a.name));
            }
        } else {
            if lex_lt(a.name, b.name) && lex_lt(b.name, a.name) {
                crate::text::lemma_lex_transitive(a.name, b.name, a.name);
                crate::text::lemma_lex_irreflexive(a.name);
            }
        }
    }
}

/// The display order is transitive.
pub proof fn lemma_node_lt_transitive(
    a: FileTreeNodeView,
    b: FileTreeNodeView,
    c: FileTreeNodeView,
)
    requires
        node_lt(a, b),
        node_lt(b, c),
    ensures
        node_lt(a, c),
{
    if rank_of(a.is_folder) == rank_of(b.is_folder) && rank_of(b.is_folder) == rank_of(
        c.is_folder,
    ) {
        let la = lower_of(a.name);
        let lb = lower_of(b.name);
        let lc = lower_of(c.name);
        if lex_lt(la, lb) && lex_lt(lb, lc) {
            crate::text::lemma_lex_transitive(la, lb, lc);
        } else if la == lb && lb == lc {
            crate::text::lemma_lex_transitive(a.name, b.name, c.name);
        }
    }
}

/// Decide the display order of two nodes.
fn node_before(a: &FileTreeNode, b: &FileTreeNode) -> (r: bool)
    ensures
        r == node_lt(node_view(*a), node_view(*b)),
{
    let ra: u8 = if a.is_folder {
        0
    } else {
        1
    };
    let rb: u8 = if b.is_folder {
        0
    } else {
        1
    };
    if ra != rb {
        ra < rb
    } else {
        let la = to_lowercase(a.name.as_str());
        let lb = to_lowercase(b.name.as_str());
        if str_eq(la.as_str(), lb.as_str()) {
            proof {
                crate::text::lemma_lex_irreflexive(lower_of(a.name@));
            }
            str_lt(a.name.as_str(), b.name.as_str())
        } else {
            str_lt(la.as_str(), lb.as_str())
        }
    }
}

// ---------------------------------------------------------------------------
// Path entries
// ---------------------------------------------------------------------------

/// A changed file on its way into the tree: the path segments still to
/// descend, the full path, and the display status.
struct PathEntry {
    segs: Vec<String>,
    full: String,
    status: String,
}

/// Ghost form of a path entry.
pub ghost struct EntryView {
    pub segs: Seq<Seq<char>>,
    pub full: Seq<char>,
    pub status: Seq<char>,
}

spec fn entry_view(e: PathEntry) -> EntryView {
    EntryView { segs: e.segs.deep_view(), full: e.full@, status: e.status@ }
}

spec fn entries_view(s: Seq<PathEntry>) -> Seq<EntryView> {
    Seq::new(s.len(), |i: int| entry_view(s[i]))
}

/// The entry a changed file starts as: its path split on `/`.
pub open spec fn entry_of_change(f: FileChange) -> EntryView {
    EntryView { segs: spec_split(f.path@, '/'), full: f.path@, status: status_name(f.status) }
}

/// Every entry still has at least one segment to place.
pub open spec fn entries_wf(entries: Seq<EntryView>) -> bool {
    forall|i: int| 0 <= i < entries.len() ==> (#[trigger] entries[i]).segs.len() >= 1
}

/// The longest remaining segment list.
pub open spec fn max_segs(entries: Seq<EntryView>) -> nat
    decreases entries.len(),
{
    if entries.len() == 0 {
        0
    } else {
        let rest = max_segs(entries.drop_first());
        if entries[0].segs.len() >= rest {
            entries[0].segs.len()
        } else {
            rest
        }
    }
}

pub proof fn lemma_max_segs_ge(entries: Seq<EntryView>, i: int)
    requires
        0 <= i < entries.len(),
    ensures
        entries[i].segs.len() <= max_segs(entries),
    decreases entries.len(),
{
    if i > 0 {
        lemma_max_segs_ge(entries.drop_first(), i - 1);
        assert(entries.drop_first()[i - 1] == entries[i]);
    }
}

pub proof fn lemma_max_segs_le(entries: Seq<EntryView>, bound: nat)
    requires
        forall|i: int| 0 <= i < entries.len() ==> (#[trigger] entries[i]).segs.len() <= bound,
    ensures
        max_segs(entries) <= bound,
    decreases entries.len(),
{
    if entries.len() > 0 {
        let t = entries.drop_first();
        assert forall|i: int| 0 <= i < t.len() implies (#[trigger] t[i]).segs.len() <= bound by {
            assert(t[i] == entries[i + 1]);
        }
        lemma_max_segs_le(t, bound);
    }
}

// ---------------------------------------------------------------------------
// The canonical tree of a list of entries
// ---------------------------------------------------------------------------

/// The distinct leading segments, first occurrence first.
pub open spec fn heads(entries: Seq<EntryView>) -> Seq<Seq<char>>
    decreases entries.len(),
{
    if entries.len() == 0 {
        Seq::empty()
    } else {
        let rest = heads(entries.drop_last());
        if rest.contains(entries.last().segs[0]) {
            rest
        } else {
            rest.push(entries.last().segs[0])
        }
    }
}

/// The entries whose next segment is `name`.
pub open spec fn with_head(entries: Seq<EntryView>, name: Seq<char>) -> Seq<EntryView> {
    entries.filter(|e: EntryView| e.segs[0] == name)
}

/// The entries that end here: this segment is their last.
pub open spec fn files_of(sub: Seq<EntryView>) -> Seq<EntryView> {
    sub.filter(|e: EntryView| e.segs.len() == 1)
}

/// The entries that descend further.
pub open spec fn dirs_of(sub: Seq<EntryView>) -> Seq<EntryView> {
    sub.filter(|e: EntryView| e.segs.len() > 1)
}

/// The same entries one level down: the leading segment consumed.
pub open spec fn tails_of(dirs: Seq<EntryView>) -> Seq<EntryView> {
    dirs.map_values(
        |e: EntryView| EntryView { segs: e.segs.drop_first(), full: e.full, status: e.status },
    )
}

/// Insert a node before the first sibling it precedes in display order.
pub open spec fn sorted_insert(nodes: Seq<FileTreeNodeView>, n: FileTreeNodeView) -> Seq<
    FileTreeNodeView,
>
    decreases nodes.len(),
{
    if nodes.len() == 0 {
        seq![n]
    } else if node_lt(n, nodes[0]) {
        seq![n] + nodes
    } else {
        seq![nodes[0]] + sorted_insert(nodes.drop_first(), n)
    }
}

/// The node one name becomes: a file node when its first entry ends here,
/// carrying the last such entry's path and status; a folder node otherwise,
/// its path the chain of segments down to it, its children the subtree of
/// the entries that descend through it. A name inserted both as a file and
/// as a folder keeps the kind of its first entry, and the last file entry's
/// status wins — the data-anomaly fallback for colliding paths.
pub open spec fn node_for(
    entries: Seq<EntryView>,
    name: Seq<char>,
    prefix: Seq<char>,
) -> FileTreeNodeView
    decreases max_segs(entries), 0nat, 0nat,
    via node_for_decreases
{
    let sub = with_head(entries, name);
    let files = files_of(sub);
    let dirs = dirs_of(sub);
    FileTreeNodeView {
        name: name,
        path: if files.len() > 0 {
            files.last().full
        } else {
            prefix + name
        },
        is_folder: if sub.len() > 0 {
            sub[0].segs.len() > 1
        } else {
            true
        },
        children: if dirs.len() == 0 {
            Seq::empty()
        } else {
            build_nodes(
                heads(tails_of(dirs)),
                tails_of(dirs),
                prefix + name + seq!['/'],
            )
        },
        status: if files.len() > 0 {
            Option::Some(files.last().status)
        } else {
            Option::None
        },
    }
}

/// The nodes of the given names, inserted in display order.
pub open spec fn build_nodes(
    names: Seq<Seq<char>>,
    entries: Seq<EntryView>,
    prefix: Seq<char>,
) -> Seq<FileTreeNodeView>
    decreases max_segs(entries), 1nat, names.len(),
{
    if names.len() == 0 {
        Seq::empty()
    } else {
        sorted_insert(
            build_nodes(names.drop_last(), entries, prefix),
            node_for(entries, names.last(), prefix),
        )
    }
}

#[via_fn]
proof fn node_for_decreases(entries: Seq<EntryView>, name: Seq<char>, prefix: Seq<char>) {
    if dirs_of(with_head(entries, name)).len() > 0 {
        lemma_tails_decrease(entries, name);
    }
}

/// One level of the canonical tree: a node for each distinct leading
/// segment, in display order.
pub open spec fn spec_build_level(entries: Seq<EntryView>, prefix: Seq<char>) -> Seq<
    FileTreeNodeView,
> {
    build_nodes(heads(entries), entries, prefix)
}

/// The entries a list of changed files starts as.
pub open spec fn entries_of_files(files: Seq<FileChange>) -> Seq<EntryView> {
    files.map_values(|f: FileChange| entry_of_change(f))
}

/// The canonical tree of a list of changed files.
pub open spec fn spec_build_tree(files: Seq<FileChange>) -> Seq<FileTreeNodeView> {
    spec_build_level(entries_of_files(files), Seq::empty())
}

/// An entry of `with_head` is an entry of the sequence, and its next
/// segment is the name.
proof fn lemma_with_head_mem(entries: Seq<EntryView>, name: Seq<char>, i: int)
    requires
        0 <= i < with_head(entries, name).len(),
    ensures
        entries.contains(with_head(entries, name)[i]),
        with_head(entries, name)[i].segs[0] == name,
    decreases entries.len(),
{
    reveal(Seq::filter);
    if entries.len() > 0 {
        let pre = entries.drop_last();
        let w = with_head(entries, name);
        if entries.last().segs[0] == name && i == w.len() - 1 {
            assert(w[i] == entries.last());
            assert(entries[entries.len() - 1] == entries.last());
        } else {
            lemma_with_head_mem(pre, name, i);
            assert(with_head(pre, name)[i] == w[i]);
            let v = choose|v: int| 0 <= v < pre.len() && pre[v] == w[i];
            assert(entries[v] == w[i]);
        }
    }
}

/// An entry of `dirs_of` is an entry of the group, and descends further.
proof fn lemma_dirs_mem(sub: Seq<EntryView>, i: int)
    requires
        0 <= i < dirs_of(sub).len(),
    ensures
        sub.contains(dirs_of(sub)[i]),
        dirs_of(sub)[i].segs.len() > 1,
    decreases sub.len(),
{
    reveal(Seq::filter);
    if sub.len() > 0 {
        let pre = sub.drop_last();
        let d = dirs_of(sub);
        if sub.last().segs.len() > 1 && i == d.len() - 1 {
            assert(d[i] == sub.last());
            assert(sub[sub.len() - 1] == sub.last());
        } else {
            lemma_dirs_mem(pre, i);
            assert(dirs_of(pre)[i] == d[i]);
            let v = choose|v: int| 0 <= v < pre.len() && pre[v] == d[i];
            assert(sub[v] == d[i]);
        }
    }
}

/// How `with_head` grows when an entry is appended.
proof fn lemma_with_head_push(pre: Seq<EntryView>, e: EntryView, name: Seq<char>)
    ensures
        e.segs[0] == name ==> with_head(pre.push(e), name) =~= with_head(pre, name).push(e),
        e.segs[0] != name ==> with_head(pre.push(e), name) =~= with_head(pre, name),
{
    broadcast use Seq::lemma_filter_push;

}

/// How `files_of` and `dirs_of` grow when an entry is appended.
proof fn lemma_files_dirs_push(pre: Seq<EntryView>, e: EntryView)
    ensures
        e.segs.len() == 1 ==> files_of(pre.push(e)) =~= files_of(pre).push(e),
        e.segs.len() != 1 ==> files_of(pre.push(e)) =~= files_of(pre),
        e.segs.len() > 1 ==> dirs_of(pre.push(e)) =~= dirs_of(pre).push(e),
        e.segs.len() <= 1 ==> dirs_of(pre.push(e)) =~= dirs_of(pre),
{
    broadcast use Seq::lemma_filter_push;

}

/// Dropping into a name's subtree strictly shortens the longest remaining
/// segment list, and leaves every entry at least one segment.
proof fn lemma_tails_decrease(entries: Seq<EntryView>, name: Seq<char>)
    requires
        dirs_of(with_head(entries, name)).len() > 0,
    ensures
        max_segs(tails_of(dirs_of(with_head(entries, name)))) < max_segs(entries),
        entries_wf(tails_of(dirs_of(with_head(entries, name)))),
    decreases entries.len(),
{
    let sub = with_head(entries, name);
    let dirs = dirs_of(sub);
    let tails = tails_of(dirs);
    assert forall|i: int| 0 <= i < tails.len() implies (#[trigger] tails[i]).segs.len()
        <= max_segs(entries) - 1 by {
        assert(tails[i].segs =~= dirs[i].segs.drop_first());
        lemma_dirs_mem(sub, i);
        let v = choose|v: int| 0 <= v < sub.len() && sub[v] == dirs[i];
        lemma_with_head_mem(entries, name, v);
        let w = choose|w: int| 0 <= w < entries.len() && entries[w] == dirs[i];
        lemma_max_segs_ge(entries, w);
    }
    assert(max_segs(entries) >= 2) by {
        lemma_dirs_mem(sub, 0);
        let v = choose|v: int| 0 <= v < sub.len() && sub[v] == dirs[0];
        lemma_with_head_mem(entries, name, v);
        let w = choose|w: int| 0 <= w < entries.len() && entries[w] == dirs[0];
        lemma_max_segs_ge(entries, w);
    }
    lemma_max_segs_le(tails, (max_segs(entries) - 1) as nat);
    assert forall|i: int| 0 <= i < tails.len() implies (#[trigger] tails[i]).segs.len() >= 1 by {
        lemma_dirs_mem(sub, i);
        assert(tails[i].segs =~= dirs[i].segs.drop_first());
    }
}

/// Where `sorted_insert` puts the new node, given the first sibling it
/// precedes.
proof fn lemma_sorted_insert_at(s: Seq<FileTreeNodeView>, n: FileTreeNodeView, p: int)
    requires
        0 <= p <= s.len(),
        forall|k: int| 0 <= k < p ==> !node_lt(n, #[trigger] s[k]),
        p < s.len() ==> node_lt(n, s[p]),
    ensures
        sorted_insert(s, n) =~= s.take(p) + seq![n] + s.skip(p),
    decreases s.len(),
{
    if s.len() == 0 {
    } else if node_lt(n, s[0]) {
        assert(p == 0);
        assert(s.take(0) =~= Seq::<FileTreeNodeView>::empty());
        assert(s.skip(0) =~= s);
    } else {
        let t = s.drop_first();
        assert forall|k: int| 0 <= k < p - 1 implies !node_lt(n, #[trigger] t[k]) by {
            assert(t[k] == s[k + 1]);
        }
        assert(p - 1 < t.len() ==> t[p - 1] == s[p]);
        lemma_sorted_insert_at(t, n, p - 1);
        assert(t.take(p - 1) =~= s.take(p).drop_first());
        assert(t.skip(p - 1) =~= s.skip(p));
    }
}

/// Ghost form of a node sequence after an insertion.
proof fn lemma_nodes_view_insert(s: Seq<FileTreeNode>, p: int, n: FileTreeNode)
    requires
        0 <= p <= s.len(),
    ensures
        nodes_view(s.insert(p, n)) =~= nodes_view(s).take(p) + seq![node_view(n)] + nodes_view(
            s,
        ).skip(p),
{
    lemma_nodes_view(s);
    lemma_nodes_view(s.insert(p, n));
}

/// The segments after the first, as owned copies.
#[verifier::loop_isolation(false)]
fn tail_segs(segs: &Vec<String>) -> (r: Vec<String>)
    requires
        segs@.len() >= 1,
    ensures
        r.deep_view() =~= segs.deep_view().drop_first(),
{
    let mut out: Vec<String> = Vec::new();
    let mut k: usize = 1;
    while k < segs.len()
        invariant
            1 <= k <= segs@.len(),
            out.deep_view() =~= segs.deep_view().subrange(1, k as int),
        decreases segs@.len() - k,
    {
        out.push(segs[k].clone());
        proof {
            assert(out.deep_view() =~= segs.deep_view().subrange(1, k + 1int));
        }
        k = k + 1;
    }
    out
}

/// Build one level of the tree from the entries that reach it.
#[verifier::loop_isolation(false)]
fn build_level(entries: Vec<PathEntry>, prefix: String) -> (r: Vec<FileTreeNode>)
    requires
        entries_wf(entries_view(entries@)),
    ensures
        nodes_view(r@) == spec_build_level(entries_view(entries@), prefix@),
    decreases max_segs(entries_view(entries@)),
{
    broadcast use vstd::seq_lib::group_filter_ensures;

    let ghost ev = entries_view(entries@);
    let n = entries.len();
    // The distinct leading segments, in first-seen order.
    let mut names: Vec<String> = Vec::new();
    let mut i: usize = 0;
    proof {
        assert(ev.take(0) =~= Seq::<EntryView>::empty());
        assert(names.deep_view() =~= heads(ev.take(0)));
    }
    while i < n
        invariant
            0 <= i <= n,
            n == entries@.len(),
            ev == entries_view(entries@),
            ev.len() == n,
            names.deep_view() == heads(ev.take(i as int)),
        decreases n - i,
    {
        let e = &entries[i];
        proof {
            assert(ev[i as int] == entry_view(entries@[i as int]));
            assert(ev[i as int].segs.len() >= 1);
            assert(e.segs@.len() >= 1);
            assert(e.segs.deep_view()[0] == e.segs@[0]@);
        }
        let head = &e.segs[0];
        let mut found = false;
        let mut j: usize = 0;
        while j < names.len()
            invariant
                0 <= j <= names@.len(),
                !found ==> forall|k: int| 0 <= k < j ==> names.deep_view()[k] != head@,
                found ==> exists|k: int|
                    0 <= k < names@.len() && names.deep_view()[k] == head@,
            decreases names@.len() - j,
        {
            if str_eq(names[j].as_str(), head.as_str()) {
                found = true;
                proof {
                    assert(names.deep_view()[j as int] == head@);
                }
                break ;
            }
            j = j + 1;
        }
        proof {
            let pre = ev.take(i as int);
            let ext = ev.take(i + 1int);
            assert(ext.drop_last() =~= pre);
            assert(ext.last() == ev[i as int]);
            assert(ev[i as int].segs[0] == head@);
            if found {
                assert(heads(pre).contains(head@));
                assert(heads(ext) =~= heads(pre));
            } else {
                assert(!heads(pre).contains(head@)) by {
                    if heads(pre).contains(head@) {
                        let w = choose|w: int|
                            0 <= w < heads(pre).len() && heads(pre)[w] == head@;
                        assert(names.deep_view()[w] == head@);
                    }
                }
                assert(heads(ext) =~= heads(pre).push(head@));
            }
        }
        if !found {
            names.push(head.clone());
            proof {
                assert(names.deep_view() =~= heads(ev.take(i + 1int)));
            }
        }
        i = i + 1;
    }
    proof {
        assert(ev.take(n as int) =~= ev);
    }
    // One node per name, inserted in display order.
    let mut result: Vec<FileTreeNode> = Vec::new();
    let ghost nv = names.deep_view();
    let mut ni: usize = 0;
    proof {
        assert(nv.take(0) =~= Seq::<Seq<char>>::empty());
        assert(nodes_view(result@) =~= build_nodes(nv.take(0), ev, prefix@));
    }
    while ni < names.len()
        invariant
            0 <= ni <= names@.len(),
            n == entries@.len(),
            ev == entries_view(entries@),
            ev.len() == n,
            entries_wf(ev),
            nv == names.deep_view(),
            nv.len() == names@.len(),
            nodes_view(result@) == build_nodes(nv.take(ni as int), ev, prefix@),
        decreases names@.len() - ni,
    {
        let name = names[ni].clone();
        proof {
            assert(name@ == nv[ni as int]);
        }
        let ghost pred_head = |e: EntryView| e.segs[0] == name@;
        let mut tails: Vec<PathEntry> = Vec::new();
        let mut last_file: Option<(String, String)> = Option::None;
        let mut first_is_file: Option<bool> = Option::None;
        let mut j: usize = 0;
        proof {
            assert(ev.take(0) =~= Seq::<EntryView>::empty());
            assert(with_head(ev.take(0), name@) =~= Seq::<EntryView>::empty()) by {
                reveal(Seq::filter);
            }
            assert(files_of(Seq::<EntryView>::empty()) =~= Seq::<EntryView>::empty()) by {
                reveal(Seq::filter);
            }
            assert(dirs_of(Seq::<EntryView>::empty()) =~= Seq::<EntryView>::empty()) by {
                reveal(Seq::filter);
            }
            assert(entries_view(tails@) =~= tails_of(
                dirs_of(with_head(ev.take(0), name@)),
            ));
        }
        while j < n
            invariant
                0 <= j <= n,
                n == entries@.len(),
                ev == entries_view(entries@),
                ev.len() == n,
                entries_wf(ev),
                pred_head == (|e: EntryView| e.segs[0] == name@),
                entries_view(tails@) == tails_of(dirs_of(with_head(ev.take(j as int), name@))),
                entries_wf(entries_view(tails@)),
                match last_file {
                    Option::Some(fs) => files_of(with_head(ev.take(j as int), name@)).len() > 0
                        && fs.0@ == files_of(with_head(ev.take(j as int), name@)).last().full
                        && fs.1@ == files_of(
                        with_head(ev.take(j as int), name@),
                    ).last().status,
                    Option::None => files_of(with_head(ev.take(j as int), name@)).len() == 0,
                },
                match first_is_file {
                    Option::Some(b) => with_head(ev.take(j as int), name@).len() > 0 && b == (
                    with_head(ev.take(j as int), name@)[0].segs.len() == 1),
                    Option::None => with_head(ev.take(j as int), name@).len() == 0,
                },
            decreases n - j,
        {
            let e = &entries[j];
            let ghost pre = ev.take(j as int);
            let ghost cur = ev[j as int];
            proof {
                assert(cur == entry_view(entries@[j as int]));
                assert(cur.segs.len() >= 1);
                assert(e.segs@.len() >= 1);
                assert(e.segs.deep_view()[0] == e.segs@[0]@);
                assert(ev.take(j + 1int) =~= pre.push(cur));
                lemma_with_head_push(pre, cur, name@);
            }
            if str_eq(e.segs[0].as_str(), name.as_str()) {
                proof {
                    assert(with_head(ev.take(j + 1int), name@) =~= with_head(pre, name@).push(
                        cur,
                    ));
                    lemma_files_dirs_push(with_head(pre, name@), cur);
                }
                if first_is_file.is_none() {
                    first_is_file = Option::Some(e.segs.len() == 1);
                }
                if e.segs.len() == 1 {
                    last_file = Option::Some((e.full.clone(), e.status.clone()));
                    proof {
                        assert(files_of(with_head(ev.take(j + 1int), name@)) =~= files_of(
                            with_head(pre, name@),
                        ).push(cur));
                        assert(dirs_of(with_head(ev.take(j + 1int), name@)) =~= dirs_of(
                            with_head(pre, name@),
                        ));
                    }
                } else {
                    let t = tail_segs(&e.segs);
                    let te = PathEntry { segs: t, full: e.full.clone(), status: e.status.clone() };
                    let ghost tev = entry_view(te);
                    proof {
                        assert(dirs_of(with_head(ev.take(j + 1int), name@)) =~= dirs_of(
                            with_head(pre, name@),
                        ).push(cur));
                        assert(files_of(with_head(ev.take(j + 1int), name@)) =~= files_of(
                            with_head(pre, name@),
                        ));
                        assert(tev.segs =~= cur.segs.drop_first());
                        assert(tev == (EntryView {
                            segs: cur.segs.drop_first(),
                            full: cur.full,
                            status: cur.status,
                        }));
                    }
                    let ghost pre_tails = entries_view(tails@);
                    tails.push(te);
                    proof {
                        assert(entries_view(tails@) =~= pre_tails.push(tev));
                        let dpre = dirs_of(with_head(pre, name@));
                        assert(tails_of(dpre.push(cur)) =~= tails_of(dpre).push(tev));
                        assert(entries_view(tails@) =~= tails_of(
                            dirs_of(with_head(ev.take(j + 1int), name@)),
                        ));
                    }
                }
            } else {
                proof {
                    assert(with_head(ev.take(j + 1int), name@) =~= with_head(pre, name@));
                }
            }
            j = j + 1;
        }
        proof {
            assert(ev.take(n as int) =~= ev);
        }
        // Assemble this name's node.
        let ghost sub = with_head(ev, name@);
        let children: Vec<FileTreeNode> = if tails.len() == 0 {
            proof {
                assert(entries_view(tails@).len() == 0);
                assert(tails_of(dirs_of(sub)).len() == 0);
                assert(dirs_of(sub).len() == 0);
            }
            Vec::new()
        } else {
            let mut child_prefix = prefix.clone();
            child_prefix.append(name.as_str());
            child_prefix.append("/");
            proof {
                reveal_strlit("/");
                assert("/"@ =~= seq!['/']);
                assert(child_prefix@ =~= prefix@ + name@ + seq!['/']);
                assert(dirs_of(sub).len() > 0);
                lemma_tails_decrease(ev, name@);
            }
            build_level(tails, child_prefix)
        };
        let (path, status): (String, Option<String>) = match last_file {
            Option::Some(fs) => (fs.0, Option::Some(fs.1)),
            Option::None => {
                let mut p = prefix.clone();
                p.append(name.as_str());
                proof {
                    assert(p@ =~= prefix@ + name@);
                }
                (p, Option::None)
            },
        };
        let is_folder = match first_is_file {
            Option::Some(b) => !b,
            Option::None => true,
        };
        let node = FileTreeNode { name: name.clone(), path, is_folder, children, status };
        proof {
            let target = node_for(ev, name@, prefix@);
            assert(node_view(node).name == target.name);
            assert(node_view(node).path == target.path);
            if sub.len() > 0 {
                lemma_with_head_mem(ev, name@, 0);
                assert(sub[0].segs.len() >= 1) by {
                    let w = choose|w: int| 0 <= w < ev.len() && ev[w] == sub[0];
                }
            }
            assert(node_view(node).is_folder == target.is_folder);
            assert(node_view(node).status == target.status);
            if dirs_of(sub).len() == 0 {
                assert(node.children@ =~= Seq::<FileTreeNode>::empty());
                assert(nodes_view(node.children@) =~= Seq::<FileTreeNodeView>::empty());
                assert(node_view(node).children =~= target.children);
            } else {
                assert(node_view(node).children == nodes_view(node.children@));
                assert(node_view(node).children == target.children);
            }
            assert(node_view(node) == target);
        }
        // Insert in display order.
        let mut pos: usize = 0;
        while pos < result.len() && !node_before(&node, &result[pos])
            invariant
                0 <= pos <= result@.len(),
                forall|k: int|
                    0 <= k < pos ==> !node_lt(node_view(node), nodes_view(result@)[k]),
            decreases result@.len() - pos,
        {
            proof {
                lemma_nodes_view(result@);
            }
            pos = pos + 1;
        }
        proof {
            lemma_nodes_view(result@);
            if pos < result.len() {
                assert(node_lt(node_view(node), nodes_view(result@)[pos as int]));
            }
            lemma_sorted_insert_at(nodes_view(result@), node_view(node), pos as int);
        }
        let ghost old_result = result@;
        result.insert(pos, node);
        proof {
            lemma_nodes_view_insert(old_result, pos as int, node);
            assert(nodes_view(result@) =~= sorted_insert(
                nodes_view(old_result),
                node_view(node),
            ));
            assert(nv.take(ni + 1int).drop_last() =~= nv.take(ni as int));
            assert(nv.take(ni + 1int).last() == nv[ni as int]);
            assert(nodes_view(result@) =~= build_nodes(nv.take(ni + 1int), ev, prefix@));
        }
        ni = ni + 1;
    }
    proof {
        assert(nv.take(names@.len() as int) =~= nv);
        assert(heads(ev) =~= nv);
    }
    result
}

// ---------------------------------------------------------------------------
// Ordering of the built tree
// ---------------------------------------------------------------------------

/// Siblings stand in strict display order: folders before files, then
/// case-insensitively by name.
pub open spec fn siblings_ordered(ns: Seq<FileTreeNodeView>) -> bool {
    forall|i: int, j: int| 0 <= i < j < ns.len() ==> node_lt(#[trigger] ns[i], #[trigger] ns[j])
}

/// Every level of the tree is in display order.
pub open spec fn tree_ordered(ns: Seq<FileTreeNodeView>) -> bool
    decreases ns,
    via tree_ordered_decreases
{
    siblings_ordered(ns) && (forall|i: int|
        0 <= i < ns.len() ==> tree_ordered(#[trigger] ns[i].children))
}

#[via_fn]
proof fn tree_ordered_decreases(ns: Seq<FileTreeNodeView>) {
    broadcast use vstd::seq::axiom_seq_index_decreases;

}

/// The distinct leading segments really are distinct.
proof fn lemma_heads_distinct(entries: Seq<EntryView>)
    ensures
        forall|i: int, j: int|
            0 <= i < j < heads(entries).len() ==> #[trigger] heads(entries)[i] != #[trigger] heads(
                entries,
            )[j],
    decreases entries.len(),
{
    if entries.len() > 0 {
        let pre = entries.drop_last();
        lemma_heads_distinct(pre);
        let h = heads(entries);
        let hp = heads(pre);
        if !hp.contains(entries.last().segs[0]) {
            assert forall|i: int, j: int| 0 <= i < j < h.len() implies #[trigger] h[i]
                != #[trigger] h[j] by {
                if j == h.len() - 1 {
                    assert(h[j] == entries.last().segs[0]);
                    assert(h[i] == hp[i]);
                    if h[i] == h[j] {
                        assert(hp.contains(h[j]));
                    }
                } else {
                    assert(h[i] == hp[i] && h[j] == hp[j]);
                }
            }
        }
    }
}

/// Inserting a node whose name no sibling bears keeps the level ordered.
proof fn lemma_sorted_insert_ordered(s: Seq<FileTreeNodeView>, n: FileTreeNodeView)
    requires
        siblings_ordered(s),
        forall|k: int| 0 <= k < s.len() ==> (#[trigger] s[k]).name != n.name,
    ensures
        siblings_ordered(sorted_insert(s, n)),
        forall|k: int|
            0 <= k < sorted_insert(s, n).len() ==> (#[trigger] sorted_insert(s, n)[k]) == n
                || s.contains(sorted_insert(s, n)[k]),
        sorted_insert(s, n).len() == s.len() + 1,
    decreases s.len(),
{
    if s.len() == 0 {
    } else if node_lt(n, s[0]) {
        let r = seq![n] + s;
        assert forall|i: int, j: int| 0 <= i < j < r.len() implies node_lt(
            #[trigger] r[i],
            #[trigger] r[j],
        ) by {
            if i == 0 {
                if j > 1 {
                    lemma_node_lt_transitive(n, s[0], s[j - 1]);
                } else {
                }
            } else {
                assert(r[i] == s[i - 1] && r[j] == s[j - 1]);
            }
        }
        assert forall|k: int| 0 <= k < r.len() implies (#[trigger] r[k]) == n || s.contains(
            r[k],
        ) by {
            if k > 0 {
                assert(r[k] == s[k - 1]);
            }
        }
    } else {
        let t = s.drop_first();
        assert(siblings_ordered(t)) by {
            assert forall|i: int, j: int| 0 <= i < j < t.len() implies node_lt(
                #[trigger] t[i],
                #[trigger] t[j],
            ) by {
                assert(t[i] == s[i + 1] && t[j] == s[j + 1]);
            }
        }
        assert forall|k: int| 0 <= k < t.len() implies (#[trigger] t[k]).name != n.name by {
            assert(t[k] == s[k + 1]);
        }
        lemma_sorted_insert_ordered(t, n);
        let rt = sorted_insert(t, n);
        let r = seq![s[0]] + rt;
        lemma_node_lt_connected(n, s[0]);
        assert(node_lt(s[0], n));
        assert forall|i: int, j: int| 0 <= i < j < r.len() implies node_lt(
            #[trigger] r[i],
            #[trigger] r[j],
        ) by {
            if i == 0 {
                assert(r[j] == rt[j - 1]);
                if rt[j - 1] == n {
                } else {
                    assert(t.contains(rt[j - 1]));
                    let w = choose|w: int| 0 <= w < t.len() && t[w] == rt[j - 1];
                    assert(t[w] == s[w + 1]);
                    assert(node_lt(s[0], s[w + 1]));
                }
            } else {
                assert(r[i] == rt[i - 1] && r[j] == rt[j - 1]);
            }
        }
        assert forall|k: int| 0 <= k < r.len() implies (#[trigger] r[k]) == n || s.contains(
            r[k],
        ) by {
            if k == 0 {
                assert(s[0] == s[0]);
            } else {
                assert(r[k] == rt[k - 1]);
                if rt[k - 1] == n {
                } else {
                    assert(t.contains(rt[k - 1]));
                    let w = choose|w: int| 0 <= w < t.len() && t[w] == rt[k - 1];
                    assert(s[w + 1] == rt[k - 1]);
                }
            }
        }
    }
}

/// One level of `build_nodes` is ordered, and every node on it is the node
/// of one of the given names.
proof fn lemma_build_nodes_ordered(
    names: Seq<Seq<char>>,
    entries: Seq<EntryView>,
    prefix: Seq<char>,
)
    requires
        forall|i: int, j: int|
            0 <= i < j < names.len() ==> #[trigger] names[i] != #[trigger] names[j],
    ensures
        siblings_ordered(build_nodes(names, entries, prefix)),
        forall|k: int|
            0 <= k < build_nodes(names, entries, prefix).len() ==> exists|m: int|
                0 <= m < names.len() && #[trigger] build_nodes(names, entries, prefix)[k]
                    == node_for(entries, names[m], prefix),
        build_nodes(names, entries, prefix).len() == names.len(),
    decreases names.len(),
{
    if names.len() > 0 {
        let pre = names.drop_last();
        assert forall|i: int, j: int| 0 <= i < j < pre.len() implies #[trigger] pre[i]
            != #[trigger] pre[j] by {
            assert(pre[i] == names[i] && pre[j] == names[j]);
        }
        lemma_build_nodes_ordered(pre, entries, prefix);
        let b = build_nodes(pre, entries, prefix);
        let n = node_for(entries, names.last(), prefix);
        assert forall|k: int| 0 <= k < b.len() implies (#[trigger] b[k]).name
            != n.name by {
            let m = choose|m: int| 0 <= m < pre.len() && b[k] == node_for(entries, pre[m], prefix);
            assert(b[k].name == pre[m]);
            assert(n.name == names.last());
            assert(pre[m] == names[m]);
        }
        lemma_sorted_insert_ordered(b, n);
        let r = build_nodes(names, entries, prefix);
        assert forall|k: int| 0 <= k < r.len() implies exists|m: int|
            0 <= m < names.len() && #[trigger] r[k] == node_for(entries, names[m], prefix) by {
            if r[k] == n {
                assert(r[k] == node_for(entries, names[names.len() - 1], prefix));
            } else {
                assert(b.contains(r[k]));
                let w = choose|w: int| 0 <= w < b.len() && b[w] == r[k];
                let m = choose|m: int|
                    0 <= m < pre.len() && b[w] == node_for(entries, pre[m], prefix);
                assert(r[k] == node_for(entries, names[m], prefix));
            }
        }
    }
}

/// Every level of the canonical tree is in display order.
proof fn lemma_build_level_ordered(entries: Seq<EntryView>, prefix: Seq<char>)
    ensures
        tree_ordered(spec_build_level(entries, prefix)),
    decreases max_segs(entries),
{
    lemma_heads_distinct(entries);
    lemma_build_nodes_ordered(heads(entries), entries, prefix);
    let r = spec_build_level(entries, prefix);
    assert forall|i: int| 0 <= i < r.len() implies tree_ordered(#[trigger] r[i].children) by {
        let m = choose|m: int|
            0 <= m < heads(entries).len() && r[i] == node_for(
                entries,
                heads(entries)[m],
                prefix,
            );
        let name = heads(entries)[m];
        let dirs = dirs_of(with_head(entries, name));
        if dirs.len() == 0 {
            assert(r[i].children =~= Seq::<FileTreeNodeView>::empty());
            assert(siblings_ordered(r[i].children));
        } else {
            lemma_tails_decrease(entries, name);
            lemma_build_level_ordered(tails_of(dirs), prefix + name + seq!['/']);
            assert(r[i].children == spec_build_level(tails_of(dirs), prefix + name + seq!['/']));
        }
    }
}

/// Tree ordering: at every depth of the built tree, siblings stand in
/// display order — folders before files, ties broken case-insensitively by
/// name (and by the raw name between case-equal names). The flattening
/// walks the tree in pre-order, so the display list shows each level in
/// this order.
pub proof fn lemma_build_tree_ordered(files: Seq<FileChange>)
    ensures
        tree_ordered(spec_build_tree(files)),
{
    lemma_build_level_ordered(entries_of_files(files), Seq::empty());
}

// ---------------------------------------------------------------------------
// Flattening for display
// ---------------------------------------------------------------------------

/// A flattened file entry, one row of the display list.
#[derive(Debug, Clone)]
pub struct FlatFileEntry {
    pub name: String,
    pub path: String,
    pub depth: i32,
    pub is_folder: bool,
    pub is_expanded: bool,
    pub status: String,
}

/// Ghost form of a flattened entry.
pub ghost struct FlatFileEntryView {
    pub name: Seq<char>,
    pub path: Seq<char>,
    pub depth: int,
    pub is_folder: bool,
    pub is_expanded: bool,
    pub status: Seq<char>,
}

impl DeepView for FlatFileEntry {
    type V = FlatFileEntryView;

    open spec fn deep_view(&self) -> FlatFileEntryView {
        FlatFileEntryView {
            name: self.name@,
            path: self.path@,
            depth: self.depth as int,
            is_folder: self.is_folder,
            is_expanded: self.is_expanded,
            status: self.status@,
        }
    }
}

/// The height of a subtree: how many levels it still opens.
pub open spec fn height_node(n: FileTreeNodeView) -> nat
    decreases n,
{
    1 + height_nodes(n.children)
}

/// The height of a forest.
pub open spec fn height_nodes(ns: Seq<FileTreeNodeView>) -> nat
    decreases ns,
    via height_nodes_decreases
{
    if ns.len() == 0 {
        0
    } else if height_node(ns[0]) >= height_nodes(ns.drop_first()) {
        height_node(ns[0])
    } else {
        height_nodes(ns.drop_first())
    }
}

#[via_fn]
proof fn height_nodes_decreases(ns: Seq<FileTreeNodeView>) {
    broadcast use vstd::seq::axiom_seq_index_decreases;
    broadcast use vstd::seq::axiom_seq_subrange_decreases;

}

proof fn lemma_height_nodes_ge(ns: Seq<FileTreeNodeView>, i: int)
    requires
        0 <= i < ns.len(),
    ensures
        height_node(ns[i]) <= height_nodes(ns),
    decreases ns.len(),
{
    if i > 0 {
        lemma_height_nodes_ge(ns.drop_first(), i - 1);
        assert(ns.drop_first()[i - 1] == ns[i]);
    }
}

proof fn lemma_height_nodes_drop(ns: Seq<FileTreeNodeView>)
    requires
        ns.len() > 0,
    ensures
        height_nodes(ns.drop_first()) <= height_nodes(ns),
{
}

/// The display row of one node: folders always stand expanded, and a node
/// without a recorded status shows as modified.
pub open spec fn flat_entry_of(n: FileTreeNodeView, depth: int) -> FlatFileEntryView {
    FlatFileEntryView {
        name: n.name,
        path: n.path,
        depth: depth,
        is_folder: n.is_folder,
        is_expanded: true,
        status: match n.status {
            Option::Some(s) => s,
            Option::None => "modified"@,
        },
    }
}

/// The next nesting level; it saturates at the display type's limit, which
/// no real tree reaches.
pub open spec fn next_depth(depth: int) -> int {
    if depth < i32::MAX {
        depth + 1
    } else {
        depth
    }
}

/// The pre-order display list of a forest: each node's row, then — for
/// folders — its children one level deeper, then its later siblings.
pub open spec fn spec_flatten_tree(ns: Seq<FileTreeNodeView>, depth: int) -> Seq<
    FlatFileEntryView,
>
    decreases height_nodes(ns), ns.len(),
    via spec_flatten_tree_decreases
{
    if ns.len() == 0 {
        Seq::empty()
    } else {
        seq![flat_entry_of(ns[0], depth)] + (if ns[0].is_folder {
            spec_flatten_tree(ns[0].children, next_depth(depth))
        } else {
            Seq::empty()
        }) + spec_flatten_tree(ns.drop_first(), depth)
    }
}

#[via_fn]
proof fn spec_flatten_tree_decreases(ns: Seq<FileTreeNodeView>, depth: int) {
    if ns.len() > 0 {
        lemma_height_nodes_ge(ns, 0);
        lemma_height_nodes_drop(ns);
    }
}

proof fn lemma_flatten_tree_push(ns: Seq<FileTreeNodeView>, n: FileTreeNodeView, depth: int)
    ensures
        spec_flatten_tree(ns.push(n), depth) =~= spec_flatten_tree(ns, depth) + spec_flatten_tree(
            seq![n],
            depth,
        ),
    decreases ns.len(),
{
    if ns.len() == 0 {
        assert(ns.push(n) =~= seq![n]);
        assert(spec_flatten_tree(ns, depth) =~= Seq::<FlatFileEntryView>::empty());
    } else {
        assert(ns.push(n)[0] == ns[0]);
        assert(ns.push(n).drop_first() =~= ns.drop_first().push(n));
        lemma_flatten_tree_push(ns.drop_first(), n, depth);
        let a = seq![flat_entry_of(ns[0], depth)] + (if ns[0].is_folder {
            spec_flatten_tree(ns[0].children, next_depth(depth))
        } else {
            Seq::<FlatFileEntryView>::empty()
        });
        let b = spec_flatten_tree(ns.drop_first(), depth);
        let c = spec_flatten_tree(seq![n], depth);
        assert(spec_flatten_tree(ns.push(n), depth) =~= a + (b + c));
        assert(a + (b + c) =~= (a + b) + c);
    }
}

/// Flatten a forest for display, each row at its nesting depth.
#[verifier::loop_isolation(false)]
pub fn flatten_tree(nodes: &Vec<FileTreeNode>, depth: i32) -> (r: Vec<FlatFileEntry>)
    ensures
        r.deep_view() == spec_flatten_tree(nodes_view(nodes@), depth as int),
    decreases height_nodes(nodes_view(nodes@)), nodes@.len(),
{
    proof {
        lemma_nodes_view(nodes@);
    }
    let ghost nv = nodes_view(nodes@);
    let mut out: Vec<FlatFileEntry> = Vec::new();
    let mut i: usize = 0;
    proof {
        assert(nv.take(0) =~= Seq::<FileTreeNodeView>::empty());
        assert(out.deep_view() =~= spec_flatten_tree(nv.take(0), depth as int));
    }
    while i < nodes.len()
        invariant
            0 <= i <= nodes@.len(),
            nv == nodes_view(nodes@),
            nv.len() == nodes@.len(),
            out.deep_view() == spec_flatten_tree(nv.take(i as int), depth as int),
        decreases nodes@.len() - i,
    {
        let n = &nodes[i];
        proof {
            lemma_nodes_view(nodes@);
            assert(nv[i as int] == node_view(nodes@[i as int]));
        }
        let status: String = match &n.status {
            Option::Some(s) => s.clone(),
            Option::None => "modified".to_owned(),
        };
        let fe = FlatFileEntry {
            name: n.name.clone(),
            path: n.path.clone(),
            depth,
            is_folder: n.is_folder,
            is_expanded: true,
            status,
        };
        let ghost fev = fe.deep_view();
        let ghost before = out.deep_view();
        proof {
            assert(fev == flat_entry_of(nv[i as int], depth as int));
        }
        out.push(fe);
        proof {
            assert(out.deep_view() =~= before.push(fev));
        }
        if n.is_folder {
            let child_depth: i32 = if depth < i32::MAX {
                depth + 1
            } else {
                depth
            };
            proof {
                lemma_height_nodes_ge(nv, i as int);
                assert(height_node(nv[i as int]) == 1 + height_nodes(
                    nodes_view(nodes@[i as int].children@),
                ));
            }
            let mut sub = flatten_tree(&n.children, child_depth);
            let ghost subv = sub.deep_view();
            let ghost mid = out.deep_view();
            out.append(&mut sub);
            proof {
                assert(out.deep_view() =~= mid + subv);
            }
        }
        proof {
            let block = spec_flatten_tree(seq![nv[i as int]], depth as int);
            assert(seq![nv[i as int]].drop_first() =~= Seq::<FileTreeNodeView>::empty());
            assert(seq![nv[i as int]][0] == nv[i as int]);
            assert(spec_flatten_tree(Seq::<FileTreeNodeView>::empty(), depth as int) =~= Seq::<
                FlatFileEntryView,
            >::empty());
            if nv[i as int].is_folder {
                assert(spec_flatten_tree(Seq::<FileTreeNodeView>::empty(), next_depth(depth as int))
                    =~= Seq::<FlatFileEntryView>::empty());
                assert(block =~= seq![flat_entry_of(nv[i as int], depth as int)]
                    + spec_flatten_tree(nv[i as int].children, next_depth(depth as int)));
            } else {
                assert(block =~= seq![flat_entry_of(nv[i as int], depth as int)]);
            }
            lemma_flatten_tree_push(nv.take(i as int), nv[i as int], depth as int);
            assert(nv.take(i as int).push(nv[i as int]) =~= nv.take(i + 1int));
            assert(out.deep_view() =~= spec_flatten_tree(nv.take(i + 1int), depth as int));
        }
        i = i + 1;
    }
    proof {
        assert(nv.take(nodes@.len() as int) =~= nv);
    }
    out
}

// ---------------------------------------------------------------------------
// Round trip: the leaves of the built tree are the input files
// ---------------------------------------------------------------------------

/// What one display row says about a file: its path and status.
pub ghost struct LeafEntry {
    pub path: Seq<char>,
    pub status: Seq<char>,
}

/// The status a row shows for a node.
pub open spec fn status_or_modified(s: Option<Seq<char>>) -> Seq<char> {
    match s {
        Option::Some(v) => v,
        Option::None => "modified"@,
    }
}

/// The leaf row of one node, were it a file.
pub open spec fn leaf_of(n: FileTreeNodeView) -> LeafEntry {
    LeafEntry { path: n.path, status: status_or_modified(n.status) }
}

/// The (path, status) pairs of the non-folder rows of a flattened list.
pub open spec fn flat_leaves(flat: Seq<FlatFileEntryView>) -> Seq<LeafEntry> {
    flat.filter(|e: FlatFileEntryView| !e.is_folder).map_values(
        |e: FlatFileEntryView| LeafEntry { path: e.path, status: e.status },
    )
}

/// The leaf rows a forest contributes to the display list, in display
/// order: a file node contributes its own row, a folder node its
/// children's.
pub open spec fn tree_leaves(ns: Seq<FileTreeNodeView>) -> Seq<LeafEntry>
    decreases height_nodes(ns), ns.len(),
    via tree_leaves_decreases
{
    if ns.len() == 0 {
        Seq::empty()
    } else {
        (if ns[0].is_folder {
            tree_leaves(ns[0].children)
        } else {
            seq![leaf_of(ns[0])]
        }) + tree_leaves(ns.drop_first())
    }
}

#[via_fn]
proof fn tree_leaves_decreases(ns: Seq<FileTreeNodeView>) {
    if ns.len() > 0 {
        lemma_height_nodes_ge(ns, 0);
        lemma_height_nodes_drop(ns);
    }
}

proof fn lemma_flat_leaves_push(s: Seq<FlatFileEntryView>, e: FlatFileEntryView)
    ensures
        !e.is_folder ==> flat_leaves(s.push(e)) =~= flat_leaves(s).push(
            LeafEntry { path: e.path, status: e.status },
        ),
        e.is_folder ==> flat_leaves(s.push(e)) =~= flat_leaves(s),
{
    broadcast use Seq::lemma_filter_push;

    let pred = |e: FlatFileEntryView| !e.is_folder;
    let f = |e: FlatFileEntryView| LeafEntry { path: e.path, status: e.status };
    if pred(e) {
        assert(s.push(e).filter(pred) =~= s.filter(pred).push(e));
        assert(s.filter(pred).push(e).map_values(f) =~= s.filter(pred).map_values(f).push(f(e)));
    } else {
        assert(s.push(e).filter(pred) =~= s.filter(pred));
    }
}

proof fn lemma_flat_leaves_concat(a: Seq<FlatFileEntryView>, b: Seq<FlatFileEntryView>)
    ensures
        flat_leaves(a + b) =~= flat_leaves(a) + flat_leaves(b),
    decreases b.len(),
{
    if b.len() == 0 {
        assert(a + b =~= a);
        assert(flat_leaves(b) =~= Seq::<LeafEntry>::empty()) by {
            reveal(Seq::filter);
        }
    } else {
        let b0 = b.drop_last();
        lemma_flat_leaves_concat(a, b0);
        lemma_flat_leaves_push(a + b0, b.last());
        lemma_flat_leaves_push(b0, b.last());
        assert((a + b0).push(b.last()) =~= a + b);
        assert(b0.push(b.last()) =~= b);
    }
}

proof fn lemma_flat_leaves_empty()
    ensures
        flat_leaves(Seq::<FlatFileEntryView>::empty()) =~= Seq::<LeafEntry>::empty(),
{
    reveal(Seq::filter);
}

/// The display list's non-folder rows are exactly the tree's leaf rows, in
/// order, at every depth.
pub proof fn lemma_flatten_leaves(ns: Seq<FileTreeNodeView>, depth: int)
    ensures
        flat_leaves(spec_flatten_tree(ns, depth)) =~= tree_leaves(ns),
    decreases height_nodes(ns), ns.len(),
{
    if ns.len() == 0 {
        lemma_flat_leaves_empty();
    } else {
        let head = seq![flat_entry_of(ns[0], depth)];
        let mid = if ns[0].is_folder {
            spec_flatten_tree(ns[0].children, next_depth(depth))
        } else {
            Seq::<FlatFileEntryView>::empty()
        };
        let rest = spec_flatten_tree(ns.drop_first(), depth);
        lemma_flat_leaves_concat(head + mid, rest);
        lemma_flat_leaves_concat(head, mid);
        assert(head =~= Seq::<FlatFileEntryView>::empty().push(flat_entry_of(ns[0], depth)));
        lemma_flat_leaves_empty();
        lemma_flat_leaves_push(Seq::<FlatFileEntryView>::empty(), flat_entry_of(ns[0], depth));
        if ns[0].is_folder {
            lemma_height_nodes_ge(ns, 0);
            lemma_flatten_leaves(ns[0].children, next_depth(depth));
        } else {
            assert(flat_leaves(head) =~= seq![leaf_of(ns[0])]);
        }
        lemma_height_nodes_drop(ns);
        lemma_flatten_leaves(ns.drop_first(), depth);
    }
}

/// The leaf rows one node contributes: its own row if it is a file, its
/// children's rows if it is a folder.
pub open spec fn node_leaves(n: FileTreeNodeView) -> Seq<LeafEntry> {
    if n.is_folder {
        tree_leaves(n.children)
    } else {
        seq![leaf_of(n)]
    }
}

/// The row an entry should end as.
pub open spec fn entry_leaf(e: EntryView) -> LeafEntry {
    LeafEntry { path: e.full, status: e.status }
}

/// The rows a list of entries should end as.
pub open spec fn entry_leaves(entries: Seq<EntryView>) -> Seq<LeafEntry> {
    entries.map_values(|e: EntryView| entry_leaf(e))
}

/// One entry's segment path leads through another's: it is the same path,
/// or an ancestor folder of it.
pub open spec fn seg_prefix(a: Seq<Seq<char>>, b: Seq<Seq<char>>) -> bool {
    a.len() <= b.len() && forall|i: int| 0 <= i < a.len() ==> a[i] == b[i]
}

/// No two entries share a segment path, and none is an ancestor of
/// another: the shape of a well-formed diff's file list.
pub open spec fn entries_compatible(entries: Seq<EntryView>) -> bool {
    forall|i: int, j: int|
        0 <= i < entries.len() && 0 <= j < entries.len() && i != j ==> !seg_prefix(
            (#[trigger] entries[i]).segs,
            (#[trigger] entries[j]).segs,
        )
}

proof fn lemma_tree_leaves_concat(a: Seq<FileTreeNodeView>, b: Seq<FileTreeNodeView>)
    ensures
        tree_leaves(a + b) =~= tree_leaves(a) + tree_leaves(b),
    decreases a.len(),
{
    if a.len() == 0 {
        assert(a + b =~= b);
    } else {
        assert((a + b)[0] == a[0]);
        assert((a + b).drop_first() =~= a.drop_first() + b);
        lemma_tree_leaves_concat(a.drop_first(), b);
        let h = node_leaves(a[0]);
        assert(tree_leaves(a + b) =~= h + (tree_leaves(a.drop_first()) + tree_leaves(b)));
        assert(h + (tree_leaves(a.drop_first()) + tree_leaves(b)) =~= (h + tree_leaves(
            a.drop_first(),
        )) + tree_leaves(b));
    }
}

/// Inserting a node in display order contributes exactly its leaf rows.
proof fn lemma_sorted_insert_leaves(s: Seq<FileTreeNodeView>, n: FileTreeNodeView)
    ensures
        tree_leaves(sorted_insert(s, n)).to_multiset() == tree_leaves(s).to_multiset().add(
            node_leaves(n).to_multiset(),
        ),
    decreases s.len(),
{
    broadcast use vstd::multiset::group_multiset_axioms;

    if s.len() == 0 {
        assert(sorted_insert(s, n) =~= seq![n]);
        assert(seq![n].drop_first() =~= Seq::<FileTreeNodeView>::empty());
        assert(tree_leaves(Seq::<FileTreeNodeView>::empty()) =~= Seq::<LeafEntry>::empty());
        assert(tree_leaves(seq![n]) =~= node_leaves(n) + Seq::<LeafEntry>::empty());
        assert(node_leaves(n) + Seq::<LeafEntry>::empty() =~= node_leaves(n));
        assert(tree_leaves(seq![n]) =~= node_leaves(n));
        assert(tree_leaves(s) =~= Seq::<LeafEntry>::empty());
        vstd::seq_lib::lemma_multiset_commutative(Seq::<LeafEntry>::empty(), node_leaves(n));
        assert(Seq::<LeafEntry>::empty() + node_leaves(n) =~= node_leaves(n));
    } else if node_lt(n, s[0]) {
        let r = seq![n] + s;
        assert(r[0] == n);
        assert(r.drop_first() =~= s);
        assert(tree_leaves(r) =~= node_leaves(n) + tree_leaves(s));
        vstd::seq_lib::lemma_multiset_commutative(node_leaves(n), tree_leaves(s));
    } else {
        let t = s.drop_first();
        lemma_sorted_insert_leaves(t, n);
        let r = seq![s[0]] + sorted_insert(t, n);
        assert(r[0] == s[0]);
        assert(r.drop_first() =~= sorted_insert(t, n));
        assert(tree_leaves(r) =~= node_leaves(s[0]) + tree_leaves(sorted_insert(t, n)));
        vstd::seq_lib::lemma_multiset_commutative(node_leaves(s[0]), tree_leaves(sorted_insert(t, n)));
        assert(tree_leaves(s) =~= node_leaves(s[0]) + tree_leaves(t));
        vstd::seq_lib::lemma_multiset_commutative(node_leaves(s[0]), tree_leaves(t));
    }
}

/// The sum of the groups of the given names.
pub open spec fn groups_sum(names: Seq<Seq<char>>, entries: Seq<EntryView>) -> Multiset<
    LeafEntry,
>
    decreases names.len(),
{
    if names.len() == 0 {
        Multiset::empty()
    } else {
        groups_sum(names.drop_last(), entries).add(
            entry_leaves(with_head(entries, names.last())).to_multiset(),
        )
    }
}

/// A name that is no entry's next segment selects no entries.
proof fn lemma_with_head_absent(entries: Seq<EntryView>, name: Seq<char>)
    requires
        !heads(entries).contains(name),
    ensures
        with_head(entries, name) =~= Seq::<EntryView>::empty(),
    decreases entries.len(),
{
    reveal(Seq::filter);
    if entries.len() > 0 {
        let pre = entries.drop_last();
        assert(!heads(pre).contains(name)) by {
            if heads(pre).contains(name) {
                let w = choose|w: int| 0 <= w < heads(pre).len() && heads(pre)[w] == name;
                if heads(entries) == heads(pre) {
                } else {
                    assert(heads(entries)[w] == name);
                }
            }
        }
        lemma_with_head_absent(pre, name);
        assert(entries.last().segs[0] != name) by {
            if entries.last().segs[0] == name {
                if heads(pre).contains(name) {
                } else {
                    assert(heads(entries).last() == name);
                }
            }
        }
    }
}

/// A name that is some entry's next segment selects at least one entry.
proof fn lemma_heads_occur(entries: Seq<EntryView>, name: Seq<char>)
    requires
        heads(entries).contains(name),
    ensures
        with_head(entries, name).len() > 0,
    decreases entries.len(),
{
    reveal(Seq::filter);
    if entries.len() > 0 {
        let pre = entries.drop_last();
        if entries.last().segs[0] == name {
        } else {
            assert(heads(pre).contains(name)) by {
                if heads(entries) == heads(pre) {
                } else {
                    let w = choose|w: int|
                        0 <= w < heads(entries).len() && heads(entries)[w] == name;
                    assert(w < heads(pre).len());
                    assert(heads(pre)[w] == name);
                }
            }
            lemma_heads_occur(pre, name);
        }
    }
}

/// Appending one entry adds its row to exactly the group of its next
/// segment — or to none of the given distinct names.
proof fn lemma_groups_sum_push(names: Seq<Seq<char>>, entries: Seq<EntryView>, e: EntryView)
    requires
        forall|i: int, j: int|
            0 <= i < j < names.len() ==> #[trigger] names[i] != #[trigger] names[j],
    ensures
        names.contains(e.segs[0]) ==> groups_sum(names, entries.push(e)) == groups_sum(
            names,
            entries,
        ).insert(entry_leaf(e)),
        !names.contains(e.segs[0]) ==> groups_sum(names, entries.push(e)) == groups_sum(
            names,
            entries,
        ),
    decreases names.len(),
{
    broadcast use vstd::multiset::group_multiset_axioms;
    broadcast use vstd::seq_lib::group_to_multiset_ensures;

    if names.len() > 0 {
        let pre = names.drop_last();
        let nm = names.last();
        assert forall|i: int, j: int| 0 <= i < j < pre.len() implies #[trigger] pre[i]
            != #[trigger] pre[j] by {
            assert(pre[i] == names[i] && pre[j] == names[j]);
        }
        lemma_groups_sum_push(pre, entries, e);
        lemma_with_head_push(entries, e, nm);
        if e.segs[0] == nm {
            assert(!pre.contains(e.segs[0])) by {
                if pre.contains(e.segs[0]) {
                    let w = choose|w: int| 0 <= w < pre.len() && pre[w] == e.segs[0];
                    assert(names[w] == names[names.len() - 1]);
                }
            }
            assert(with_head(entries.push(e), nm) =~= with_head(entries, nm).push(e));
            assert(entry_leaves(with_head(entries, nm).push(e)) =~= entry_leaves(
                with_head(entries, nm),
            ).push(entry_leaf(e)));
            assert(entry_leaves(with_head(entries, nm).push(e)).to_multiset() == entry_leaves(
                with_head(entries, nm),
            ).to_multiset().insert(entry_leaf(e)));
            assert(names.contains(e.segs[0])) by {
                assert(names[names.len() - 1] == e.segs[0]);
            }
        } else {
            assert(with_head(entries.push(e), nm) =~= with_head(entries, nm));
            assert(names.contains(e.segs[0]) == pre.contains(e.segs[0])) by {
                if names.contains(e.segs[0]) {
                    let w = choose|w: int| 0 <= w < names.len() && names[w] == e.segs[0];
                    assert(w < pre.len());
                    assert(pre[w] == e.segs[0]);
                }
                if pre.contains(e.segs[0]) {
                    let w = choose|w: int| 0 <= w < pre.len() && pre[w] == e.segs[0];
                    assert(names[w] == e.segs[0]);
                }
            }
        }
    }
}

/// Every entry lands in exactly one group: the groups of the distinct
/// leading segments partition the entries.
proof fn lemma_partition(entries: Seq<EntryView>)
    ensures
        groups_sum(heads(entries), entries) == entry_leaves(entries).to_multiset(),
    decreases entries.len(),
{
    broadcast use vstd::multiset::group_multiset_axioms;
    broadcast use vstd::seq_lib::group_to_multiset_ensures;

    if entries.len() == 0 {
        assert(entry_leaves(entries) =~= Seq::<LeafEntry>::empty());
        assert(entry_leaves(entries).to_multiset() =~= Multiset::<LeafEntry>::empty());
    } else {
        let pre = entries.drop_last();
        let e = entries.last();
        lemma_partition(pre);
        lemma_heads_distinct(pre);
        assert(pre.push(e) =~= entries);
        assert(entry_leaves(pre).push(entry_leaf(e)) =~= entry_leaves(entries));
        assert(entry_leaves(entries).to_multiset() == entry_leaves(pre).to_multiset().insert(
            entry_leaf(e),
        )) by {
            assert(entry_leaves(pre).push(entry_leaf(e)).to_multiset() == entry_leaves(
                pre,
            ).to_multiset().insert(entry_leaf(e)));
        }
        if heads(pre).contains(e.segs[0]) {
            assert(heads(entries) == heads(pre));
            lemma_groups_sum_push(heads(pre), pre, e);
            assert(groups_sum(heads(pre), entries) == groups_sum(heads(pre), pre).insert(
                entry_leaf(e),
            )) by {
                assert(groups_sum(heads(pre), pre.push(e)) == groups_sum(
                    heads(pre),
                    pre,
                ).insert(entry_leaf(e)));
            }
        } else {
            let h = e.segs[0];
            assert(heads(entries) =~= heads(pre).push(h));
            lemma_groups_sum_push(heads(pre), pre, e);
            assert(groups_sum(heads(pre), entries) == groups_sum(heads(pre), pre)) by {
                assert(groups_sum(heads(pre), pre.push(e)) == groups_sum(heads(pre), pre));
            }
            assert(heads(entries).drop_last() =~= heads(pre));
            assert(heads(entries).last() == h);
            lemma_with_head_absent(pre, h);
            lemma_with_head_push(pre, e, h);
            assert(with_head(entries, h) =~= with_head(pre, h).push(e)) by {
                assert(with_head(pre.push(e), h) =~= with_head(pre, h).push(e));
            }
            assert(with_head(entries, h) =~= Seq::<EntryView>::empty().push(e));
            assert(entry_leaves(Seq::<EntryView>::empty().push(e)) =~= Seq::<
                LeafEntry,
            >::empty().push(entry_leaf(e)));
            assert(Seq::<LeafEntry>::empty().push(entry_leaf(e)).to_multiset() == Multiset::<
                LeafEntry,
            >::empty().insert(entry_leaf(e))) by {
                assert(Seq::<LeafEntry>::empty().to_multiset() =~= Multiset::<
                    LeafEntry,
                >::empty());
            }
        }
    }
}

/// Two positions of a name's group come from two positions of the
/// entries, in the same order.
proof fn lemma_with_head_two(entries: Seq<EntryView>, name: Seq<char>, p: int, q: int)
    requires
        0 <= p < q < with_head(entries, name).len(),
    ensures
        exists|i: int, j: int|
            #![auto]
            0 <= i < j < entries.len() && entries[i] == with_head(entries, name)[p] && entries[j]
                == with_head(entries, name)[q],
    decreases entries.len(),
{
    reveal(Seq::filter);
    let w = with_head(entries, name);
    let pre = entries.drop_last();
    if entries.last().segs[0] == name && q == w.len() - 1 {
        assert(w[q] == entries.last());
        lemma_with_head_mem(pre, name, p);
        assert(with_head(pre, name)[p] == w[p]);
        let i = choose|i: int| 0 <= i < pre.len() && pre[i] == w[p];
        assert(entries[i] == w[p]);
        assert(entries[entries.len() - 1] == w[q]);
    } else {
        lemma_with_head_two(pre, name, p, q);
        let (i, j) = choose|i: int, j: int|
            #![auto]
            0 <= i < j < pre.len() && pre[i] == with_head(pre, name)[p] && pre[j] == with_head(
                pre,
                name,
            )[q];
        assert(entries[i] == w[p] && entries[j] == w[q]);
    }
}

/// Two positions of the descending entries come from two positions of the
/// group, in the same order.
proof fn lemma_dirs_two(sub: Seq<EntryView>, p: int, q: int)
    requires
        0 <= p < q < dirs_of(sub).len(),
    ensures
        exists|i: int, j: int|
            #![auto]
            0 <= i < j < sub.len() && sub[i] == dirs_of(sub)[p] && sub[j] == dirs_of(sub)[q],
    decreases sub.len(),
{
    reveal(Seq::filter);
    let d = dirs_of(sub);
    let pre = sub.drop_last();
    if sub.last().segs.len() > 1 && q == d.len() - 1 {
        assert(d[q] == sub.last());
        lemma_dirs_mem(pre, p);
        assert(dirs_of(pre)[p] == d[p]);
        let i = choose|i: int| 0 <= i < pre.len() && pre[i] == d[p];
        assert(sub[i] == d[p]);
        assert(sub[sub.len() - 1] == d[q]);
    } else {
        lemma_dirs_two(pre, p, q);
        let (i, j) = choose|i: int, j: int|
            #![auto]
            0 <= i < j < pre.len() && pre[i] == dirs_of(pre)[p] && pre[j] == dirs_of(pre)[q];
        assert(sub[i] == d[p] && sub[j] == d[q]);
    }
}

/// An ending entry of a group is one of the group's entries.
proof fn lemma_files_mem(sub: Seq<EntryView>, k: int)
    requires
        0 <= k < files_of(sub).len(),
    ensures
        exists|v: int| 0 <= v < sub.len() && #[trigger] sub[v] == files_of(sub)[k],
        files_of(sub)[k].segs.len() == 1,
    decreases sub.len(),
{
    reveal(Seq::filter);
    if sub.len() > 0 {
        let pre = sub.drop_last();
        let f = files_of(sub);
        if sub.last().segs.len() == 1 && k == f.len() - 1 {
            assert(f[k] == sub.last());
            assert(sub[sub.len() - 1] == f[k]);
        } else {
            lemma_files_mem(pre, k);
            assert(files_of(pre)[k] == f[k]);
            let v = choose|v: int| 0 <= v < pre.len() && #[trigger] pre[v] == files_of(pre)[k];
            assert(sub[v] == f[k]);
        }
    }
}

/// When every entry of a group descends, the descending part is the whole
/// group.
proof fn lemma_dirs_all(sub: Seq<EntryView>)
    requires
        forall|i: int| 0 <= i < sub.len() ==> (#[trigger] sub[i]).segs.len() > 1,
    ensures
        dirs_of(sub) =~= sub,
    decreases sub.len(),
{
    reveal(Seq::filter);
    if sub.len() > 0 {
        let pre = sub.drop_last();
        assert forall|i: int| 0 <= i < pre.len() implies (#[trigger] pre[i]).segs.len() > 1 by {
            assert(pre[i] == sub[i]);
        }
        lemma_dirs_all(pre);
        assert(sub[sub.len() - 1].segs.len() > 1);
    }
}

/// Compatibility carries into a name's subtree.
proof fn lemma_tails_compatible(entries: Seq<EntryView>, name: Seq<char>)
    requires
        entries_compatible(entries),
    ensures
        entries_compatible(tails_of(dirs_of(with_head(entries, name)))),
{
    let sub = with_head(entries, name);
    let dirs = dirs_of(sub);
    let tails = tails_of(dirs);
    assert forall|p: int, q: int|
        0 <= p < tails.len() && 0 <= q < tails.len() && p != q implies !seg_prefix(
        (#[trigger] tails[p]).segs,
        (#[trigger] tails[q]).segs,
    ) by {
        if seg_prefix(tails[p].segs, tails[q].segs) {
            let (lo, hi) = if p < q {
                (p, q)
            } else {
                (q, p)
            };
            lemma_dirs_two(sub, lo, hi);
            let (v1, v2) = choose|v1: int, v2: int|
                #![auto]
                0 <= v1 < v2 < sub.len() && sub[v1] == dirs_of(sub)[lo] && sub[v2] == dirs_of(
                    sub,
                )[hi];
            lemma_with_head_two(entries, name, v1, v2);
            let (i, j) = choose|i: int, j: int|
                #![auto]
                0 <= i < j < entries.len() && entries[i] == with_head(entries, name)[v1]
                    && entries[j] == with_head(entries, name)[v2];
            // The two entries' segment lists start with the name and then
            // follow the two tails, so the prefix carries up.
            lemma_with_head_mem(entries, name, v1);
            lemma_with_head_mem(entries, name, v2);
            assert(tails[p].segs =~= dirs[p].segs.drop_first());
            assert(tails[q].segs =~= dirs[q].segs.drop_first());
            assert(dirs[p].segs[0] == name && dirs[q].segs[0] == name) by {
                lemma_dirs_mem(sub, p);
                lemma_dirs_mem(sub, q);
                let a = choose|a: int| 0 <= a < sub.len() && sub[a] == dirs[p];
                lemma_with_head_mem(entries, name, a);
                let b = choose|b: int| 0 <= b < sub.len() && sub[b] == dirs[q];
                lemma_with_head_mem(entries, name, b);
            }
            assert(seg_prefix(dirs[p].segs, dirs[q].segs)) by {
                assert forall|x: int| 0 <= x < dirs[p].segs.len() implies dirs[p].segs[x]
                    == dirs[q].segs[x] by {
                    if x > 0 {
                        assert(dirs[p].segs[x] == tails[p].segs[x - 1]);
                        assert(dirs[q].segs[x] == tails[q].segs[x - 1]);
                    }
                }
            }
            if p < q {
                assert(entries[i] == dirs[lo] && entries[j] == dirs[hi]);
                assert(seg_prefix(entries[i].segs, entries[j].segs));
            } else {
                assert(entries[i] == dirs[lo] && entries[j] == dirs[hi]);
                assert(seg_prefix(entries[j].segs, entries[i].segs));
            }
        }
    }
}

/// The leaf rows of one name's node are exactly the rows of the entries
/// the name groups.
proof fn lemma_node_leaves_are_group(entries: Seq<EntryView>, name: Seq<char>, prefix: Seq<char>)
    requires
        entries_wf(entries),
        entries_compatible(entries),
        heads(entries).contains(name),
    ensures
        node_leaves(node_for(entries, name, prefix)).to_multiset() == entry_leaves(
            with_head(entries, name),
        ).to_multiset(),
    decreases max_segs(entries), 0nat, 0nat,
{
    broadcast use vstd::multiset::group_multiset_axioms;
    broadcast use vstd::seq_lib::group_to_multiset_ensures;

    let sub = with_head(entries, name);
    lemma_heads_occur(entries, name);
    let n = node_for(entries, name, prefix);
    assert forall|v: int| 0 <= v < sub.len() implies (#[trigger] sub[v]).segs.len() >= 1 by {
        lemma_with_head_mem(entries, name, v);
        let w = choose|w: int| 0 <= w < entries.len() && entries[w] == sub[v];
    }
    if sub[0].segs.len() == 1 {
        // A file node: the group holds exactly this one entry.
        assert(sub.len() == 1) by {
            if sub.len() > 1 {
                lemma_with_head_two(entries, name, 0, 1);
                let (i, j) = choose|i: int, j: int|
                    #![auto]
                    0 <= i < j < entries.len() && entries[i] == sub[0] && entries[j] == sub[1];
                lemma_with_head_mem(entries, name, 0);
                lemma_with_head_mem(entries, name, 1);
                assert(seg_prefix(entries[i].segs, entries[j].segs)) by {
                    assert(sub[0].segs[0] == name && sub[1].segs[0] == name);
                }
            }
        }
        assert(files_of(sub) =~= sub) by {
            reveal(Seq::filter);
            assert(sub =~= sub.drop_last().push(sub[0]));
            assert(sub.drop_last() =~= Seq::<EntryView>::empty());
        }
        assert(files_of(sub).last() == sub[0]);
        assert(!n.is_folder);
        assert(n.status == Option::Some(sub[0].status));
        assert(node_leaves(n) =~= seq![LeafEntry { path: sub[0].full, status: sub[0].status }]);
        assert(entry_leaves(sub) =~= seq![entry_leaf(sub[0])]);
        assert(node_leaves(n) =~= entry_leaves(sub));
    } else {
        // A folder node: no entry of the group ends here.
        assert(files_of(sub).len() == 0) by {
            if files_of(sub).len() > 0 {
                lemma_files_mem(sub, 0);
                let v = choose|v: int| 0 <= v < sub.len() && #[trigger] sub[v] == files_of(sub)[0];
                assert(v != 0);
                let (lo, hi) = if 0 < v {
                    (0int, v)
                } else {
                    (v, 0int)
                };
                lemma_with_head_two(entries, name, lo, hi);
                let (i, j) = choose|i: int, j: int|
                    #![auto]
                    0 <= i < j < entries.len() && entries[i] == sub[lo] && entries[j] == sub[hi];
                lemma_with_head_mem(entries, name, 0);
                lemma_with_head_mem(entries, name, v);
                assert(sub[v].segs.len() == 1);
                assert(seg_prefix(sub[v].segs, sub[0].segs));
                if v > 0 {
                    assert(seg_prefix(entries[j].segs, entries[i].segs));
                } else {
                    assert(seg_prefix(entries[i].segs, entries[j].segs));
                }
            }
        }
        assert forall|v: int| 0 <= v < sub.len() implies (#[trigger] sub[v]).segs.len() > 1 by {
            if sub[v].segs.len() == 1 {
                broadcast use vstd::seq_lib::group_filter_ensures;

                Seq::lemma_filter_contains(sub, |e: EntryView| e.segs.len() == 1, v);
            }
        }
        lemma_dirs_all(sub);
        let dirs = dirs_of(sub);
        let tails = tails_of(dirs);
        assert(dirs.len() > 0);
        lemma_tails_decrease(entries, name);
        lemma_tails_compatible(entries, name);
        lemma_level_leaves(tails, prefix + name + seq!['/']);
        assert(n.is_folder);
        assert(n.children == spec_build_level(tails, prefix + name + seq!['/']));
        assert(node_leaves(n) == tree_leaves(n.children));
        assert(entry_leaves(tails) =~= entry_leaves(dirs)) by {
            assert forall|v: int| 0 <= v < tails.len() implies entry_leaves(tails)[v]
                == entry_leaves(dirs)[v] by {
                assert(tails[v].full == dirs[v].full && tails[v].status == dirs[v].status);
            }
        }
        assert(entry_leaves(dirs) =~= entry_leaves(sub));
    }
}

/// One level's nodes carry exactly the rows of their names' groups.
proof fn lemma_build_nodes_leaves(names: Seq<Seq<char>>, entries: Seq<EntryView>, prefix: Seq<char>)
    requires
        entries_wf(entries),
        entries_compatible(entries),
        forall|m: int| 0 <= m < names.len() ==> heads(entries).contains(#[trigger] names[m]),
    ensures
        tree_leaves(build_nodes(names, entries, prefix)).to_multiset() == groups_sum(
            names,
            entries,
        ),
    decreases max_segs(entries), 1nat, names.len(),
{
    broadcast use vstd::multiset::group_multiset_axioms;

    if names.len() == 0 {
        broadcast use vstd::seq_lib::group_to_multiset_ensures;

        assert(tree_leaves(Seq::<FileTreeNodeView>::empty()) =~= Seq::<LeafEntry>::empty());
        vstd::multiset::lemma_multiset_empty_len(Seq::<LeafEntry>::empty().to_multiset());
        assert(Seq::<LeafEntry>::empty().to_multiset() =~= Multiset::<LeafEntry>::empty());
    } else {
        let pre = names.drop_last();
        assert forall|m: int| 0 <= m < pre.len() implies heads(entries).contains(
            #[trigger] pre[m],
        ) by {
            assert(pre[m] == names[m]);
        }
        lemma_build_nodes_leaves(pre, entries, prefix);
        lemma_node_leaves_are_group(entries, names.last(), prefix);
        lemma_sorted_insert_leaves(
            build_nodes(pre, entries, prefix),
            node_for(entries, names.last(), prefix),
        );
    }
}

/// One level of the canonical tree carries exactly the rows of the entries
/// that reach it.
proof fn lemma_level_leaves(entries: Seq<EntryView>, prefix: Seq<char>)
    requires
        entries_wf(entries),
        entries_compatible(entries),
    ensures
        tree_leaves(spec_build_level(entries, prefix)).to_multiset() == entry_leaves(
            entries,
        ).to_multiset(),
    decreases max_segs(entries), 2nat, 0nat,
{
    assert forall|m: int| 0 <= m < heads(entries).len() implies heads(entries).contains(
        #[trigger] heads(entries)[m],
    ) by {}
    lemma_build_nodes_leaves(heads(entries), entries, prefix);
    lemma_partition(entries);
}

/// The shape of a well-formed diff's file list: no two files share a path,
/// and no file's path names a folder of another's.
pub open spec fn files_compatible(files: Seq<FileChange>) -> bool {
    entries_compatible(entries_of_files(files))
}

/// The row one changed file should end as.
pub open spec fn change_leaf(f: FileChange) -> LeafEntry {
    LeafEntry { path: f.path@, status: status_name(f.status) }
}

/// Round trip: flattening the built tree shows exactly one leaf row per
/// input file, carrying the file's path and status verbatim — only the
/// order differs, display order instead of input order. This holds of
/// file lists whose paths are distinct and never nest one file under
/// another's path; on colliding paths the builder's documented
/// last-write-wins fallback merges rows instead.
pub proof fn lemma_round_trip(files: Seq<FileChange>, depth: int)
    requires
        files_compatible(files),
    ensures
        flat_leaves(spec_flatten_tree(spec_build_tree(files), depth)).to_multiset()
            == files.map_values(|f: FileChange| change_leaf(f)).to_multiset(),
{
    let entries = entries_of_files(files);
    assert(entries_wf(entries)) by {
        assert forall|k: int| 0 <= k < entries.len() implies (#[trigger] entries[k]).segs.len()
            >= 1 by {
            crate::text::lemma_spec_split_len(files[k].path@, '/');
        }
    }
    lemma_flatten_leaves(spec_build_tree(files), depth);
    lemma_level_leaves(entries, Seq::empty());
    assert(entry_leaves(entries) =~= files.map_values(|f: FileChange| change_leaf(f))) by {
        assert forall|k: int| 0 <= k < files.len() implies entry_leaves(entries)[k]
            == files.map_values(|f: FileChange| change_leaf(f))[k] by {
            assert(entries[k] == entry_of_change(files[k]));
        }
    }
}

// ---------------------------------------------------------------------------
// Permutation invariance: the built tree ignores input order
// ---------------------------------------------------------------------------

/// An element counted at least twice sits at two positions.
proof fn lemma_count_two(s: Seq<EntryView>, a: EntryView)
    requires
        s.to_multiset().count(a) >= 2,
    ensures
        exists|i: int, j: int| #![auto] 0 <= i < s.len() && 0 <= j < s.len() && i != j && s[i] == a
            && s[j] == a,
{
    broadcast use vstd::seq_lib::group_to_multiset_ensures;
    broadcast use vstd::multiset::group_multiset_axioms;

    assert(s.contains(a));
    let i = choose|i: int| 0 <= i < s.len() && s[i] == a;
    let r = s.remove(i);
    assert(r.to_multiset() =~= s.to_multiset().remove(a));
    assert(r.to_multiset().count(a) >= 1);
    assert(r.contains(a));
    let k = choose|k: int| 0 <= k < r.len() && r[k] == a;
    let j = if k < i {
        k
    } else {
        k + 1
    };
    assert(s[j] == a && j != i);
}

/// `with_head` distributes over concatenation.
proof fn lemma_with_head_concat(a: Seq<EntryView>, b: Seq<EntryView>, name: Seq<char>)
    ensures
        with_head(a + b, name) =~= with_head(a, name) + with_head(b, name),
    decreases b.len(),
{
    if b.len() == 0 {
        assert(a + b =~= a);
        assert(with_head(b, name) =~= Seq::<EntryView>::empty()) by {
            reveal(Seq::filter);
        }
    } else {
        let b0 = b.drop_last();
        lemma_with_head_concat(a, b0, name);
        lemma_with_head_push(a + b0, b.last(), name);
        lemma_with_head_push(b0, b.last(), name);
        assert((a + b0).push(b.last()) =~= a + b);
        assert(b0.push(b.last()) =~= b);
    }
}

/// Removing one entry removes exactly its contribution to a name's group.
proof fn lemma_with_head_remove(s: Seq<EntryView>, name: Seq<char>, k: int)
    requires
        0 <= k < s.len(),
    ensures
        s[k].segs[0] == name ==> with_head(s, name).to_multiset() == with_head(
            s.remove(k),
            name,
        ).to_multiset().insert(s[k]),
        s[k].segs[0] != name ==> with_head(s, name).to_multiset() == with_head(
            s.remove(k),
            name,
        ).to_multiset(),
{
    broadcast use vstd::seq_lib::group_to_multiset_ensures;
    broadcast use vstd::multiset::group_multiset_axioms;

    let pre = s.take(k);
    let post = s.skip(k + 1);
    assert(s =~= pre + (seq![s[k]] + post));
    assert(s.remove(k) =~= pre + post);
    lemma_with_head_concat(pre, seq![s[k]] + post, name);
    lemma_with_head_concat(seq![s[k]], post, name);
    lemma_with_head_concat(pre, post, name);
    assert(with_head(s, name) == with_head(pre + (seq![s[k]] + post), name));
    assert(seq![s[k]] =~= Seq::<EntryView>::empty().push(s[k]));
    lemma_with_head_push(Seq::<EntryView>::empty(), s[k], name);
    assert(with_head(Seq::<EntryView>::empty(), name) =~= Seq::<EntryView>::empty()) by {
        reveal(Seq::filter);
    }
    let wp = with_head(pre, name);
    let wo = with_head(post, name);
    if s[k].segs[0] == name {
        assert(with_head(seq![s[k]], name) =~= seq![s[k]]);
        assert(with_head(s, name) =~= wp + (seq![s[k]] + wo));
        vstd::seq_lib::lemma_multiset_commutative(wp, seq![s[k]] + wo);
        vstd::seq_lib::lemma_multiset_commutative(seq![s[k]], wo);
        vstd::seq_lib::lemma_multiset_commutative(wp, wo);
        assert(seq![s[k]].to_multiset() =~= Multiset::<EntryView>::empty().insert(s[k])) by {
            assert(Seq::<EntryView>::empty().to_multiset() =~= Multiset::<EntryView>::empty());
        }
        assert(with_head(s, name).to_multiset() =~= with_head(s.remove(k), name).to_multiset()
            .insert(s[k]));
    } else {
        assert(with_head(seq![s[k]], name) =~= Seq::<EntryView>::empty());
        assert(with_head(s, name) =~= wp + (Seq::<EntryView>::empty() + wo));
        assert(Seq::<EntryView>::empty() + wo =~= wo);
        vstd::seq_lib::lemma_multiset_commutative(wp, wo);
    }
}

/// Entry lists with the same contents group the same entries under a name.
proof fn lemma_with_head_perm(e1: Seq<EntryView>, e2: Seq<EntryView>, name: Seq<char>)
    requires
        e1.to_multiset() == e2.to_multiset(),
    ensures
        with_head(e1, name).to_multiset() == with_head(e2, name).to_multiset(),
    decreases e1.len(),
{
    broadcast use vstd::seq_lib::group_to_multiset_ensures;
    broadcast use vstd::multiset::group_multiset_axioms;

    if e1.len() == 0 {
        assert(e1.to_multiset().len() == e1.len());
        assert(e2.to_multiset().len() == e2.len());
        assert(e1 =~= e2);
    } else {
        let a = e1.last();
        assert(e1.to_multiset().count(a) >= 1) by {
            assert(e1.contains(a));
        }
        assert(e2.contains(a));
        let k = choose|k: int| 0 <= k < e2.len() && e2[k] == a;
        let r1 = e1.drop_last();
        let r2 = e2.remove(k);
        assert(r1 =~= e1.remove(e1.len() - 1));
        assert(r1.to_multiset() =~= e1.to_multiset().remove(a)) by {
            assert(e1.remove(e1.len() - 1).to_multiset() =~= e1.to_multiset().remove(
                e1[e1.len() - 1],
            ));
        }
        assert(r2.to_multiset() =~= e2.to_multiset().remove(a));
        lemma_with_head_perm(r1, r2, name);
        lemma_with_head_remove(e1, name, e1.len() - 1);
        lemma_with_head_remove(e2, name, k);
    }
}

/// Whether a name is a leading segment.
proof fn lemma_heads_member(entries: Seq<EntryView>, name: Seq<char>)
    ensures
        heads(entries).contains(name) <==> exists|i: int|
            0 <= i < entries.len() && (#[trigger] entries[i]).segs[0] == name,
    decreases entries.len(),
{
    if entries.len() > 0 {
        let pre = entries.drop_last();
        lemma_heads_member(pre, name);
        let h = heads(entries);
        let hp = heads(pre);
        if entries.last().segs[0] == name {
            assert(entries[entries.len() - 1].segs[0] == name);
            if hp.contains(name) {
            } else {
                assert(h.last() == name);
            }
        } else {
            if h.contains(name) {
                let w = choose|w: int| 0 <= w < h.len() && h[w] == name;
                assert(hp.contains(name)) by {
                    if hp.contains(entries.last().segs[0]) {
                    } else {
                        assert(w < h.len() - 1 || h[w] == entries.last().segs[0]);
                        assert(hp[w] == name);
                    }
                }
                let i = choose|i: int| 0 <= i < pre.len() && (#[trigger] pre[i]).segs[0] == name;
                assert(entries[i].segs[0] == name);
            }
            if exists|i: int| 0 <= i < entries.len() && (#[trigger] entries[i]).segs[0] == name {
                let i = choose|i: int|
                    0 <= i < entries.len() && (#[trigger] entries[i]).segs[0] == name;
                assert(i < pre.len());
                assert(pre[i].segs[0] == name);
                assert(hp.contains(name));
                if hp.contains(entries.last().segs[0]) {
                } else {
                    let w = choose|w: int| 0 <= w < hp.len() && hp[w] == name;
                    assert(h[w] == name);
                }
            }
        }
    }
}

/// `files_of` and `dirs_of` distribute over concatenation.
proof fn lemma_files_dirs_concat(a: Seq<EntryView>, b: Seq<EntryView>)
    ensures
        files_of(a + b) =~= files_of(a) + files_of(b),
        dirs_of(a + b) =~= dirs_of(a) + dirs_of(b),
    decreases b.len(),
{
    if b.len() == 0 {
        assert(a + b =~= a);
        assert(files_of(b) =~= Seq::<EntryView>::empty()) by {
            reveal(Seq::filter);
        }
        assert(dirs_of(b) =~= Seq::<EntryView>::empty()) by {
            reveal(Seq::filter);
        }
    } else {
        let b0 = b.drop_last();
        lemma_files_dirs_concat(a, b0);
        lemma_files_dirs_push(a + b0, b.last());
        lemma_files_dirs_push(b0, b.last());
        assert((a + b0).push(b.last()) =~= a + b);
        assert(b0.push(b.last()) =~= b);
    }
}

/// Removing one entry removes exactly its contribution to the split into
/// files and folders.
proof fn lemma_files_dirs_remove(s: Seq<EntryView>, k: int)
    requires
        0 <= k < s.len(),
    ensures
        s[k].segs.len() == 1 ==> files_of(s).to_multiset() == files_of(
            s.remove(k),
        ).to_multiset().insert(s[k]) && dirs_of(s).to_multiset() == dirs_of(
            s.remove(k),
        ).to_multiset(),
        s[k].segs.len() > 1 ==> dirs_of(s).to_multiset() == dirs_of(
            s.remove(k),
        ).to_multiset().insert(s[k]) && files_of(s).to_multiset() == files_of(
            s.remove(k),
        ).to_multiset(),
        s[k].segs.len() == 0 ==> files_of(s).to_multiset() == files_of(s.remove(k)).to_multiset()
            && dirs_of(s).to_multiset() == dirs_of(s.remove(k)).to_multiset(),
{
    broadcast use vstd::seq_lib::group_to_multiset_ensures;
    broadcast use vstd::multiset::group_multiset_axioms;

    let pre = s.take(k);
    let post = s.skip(k + 1);
    assert(s =~= pre + (seq![s[k]] + post));
    assert(s.remove(k) =~= pre + post);
    lemma_files_dirs_concat(pre, seq![s[k]] + post);
    lemma_files_dirs_concat(seq![s[k]], post);
    lemma_files_dirs_concat(pre, post);
    assert(seq![s[k]] =~= Seq::<EntryView>::empty().push(s[k]));
    lemma_files_dirs_push(Seq::<EntryView>::empty(), s[k]);
    assert(files_of(Seq::<EntryView>::empty()) =~= Seq::<EntryView>::empty()) by {
        reveal(Seq::filter);
    }
    assert(dirs_of(Seq::<EntryView>::empty()) =~= Seq::<EntryView>::empty()) by {
        reveal(Seq::filter);
    }
    assert(seq![s[k]].to_multiset() =~= Multiset::<EntryView>::empty().insert(s[k])) by {
        assert(Seq::<EntryView>::empty().to_multiset() =~= Multiset::<EntryView>::empty());
    }
    vstd::seq_lib::lemma_multiset_commutative(files_of(pre), files_of(seq![s[k]] + post));
    vstd::seq_lib::lemma_multiset_commutative(files_of(seq![s[k]]), files_of(post));
    vstd::seq_lib::lemma_multiset_commutative(files_of(pre), files_of(post));
    vstd::seq_lib::lemma_multiset_commutative(dirs_of(pre), dirs_of(seq![s[k]] + post));
    vstd::seq_lib::lemma_multiset_commutative(dirs_of(seq![s[k]]), dirs_of(post));
    vstd::seq_lib::lemma_multiset_commutative(dirs_of(pre), dirs_of(post));
}

/// Groups with the same contents split the same way into files and
/// folders.
proof fn lemma_files_dirs_perm(e1: Seq<EntryView>, e2: Seq<EntryView>)
    requires
        e1.to_multiset() == e2.to_multiset(),
    ensures
        files_of(e1).to_multiset() == files_of(e2).to_multiset(),
        dirs_of(e1).to_multiset() == dirs_of(e2).to_multiset(),
    decreases e1.len(),
{
    broadcast use vstd::seq_lib::group_to_multiset_ensures;
    broadcast use vstd::multiset::group_multiset_axioms;

    if e1.len() == 0 {
        assert(e1.to_multiset().len() == e1.len());
        assert(e2.to_multiset().len() == e2.len());
        assert(e1 =~= e2);
    } else {
        let a = e1.last();
        assert(e1.to_multiset().count(a) >= 1) by {
            assert(e1.contains(a));
        }
        assert(e2.contains(a));
        let k = choose|k: int| 0 <= k < e2.len() && e2[k] == a;
        let r1 = e1.drop_last();
        let r2 = e2.remove(k);
        assert(r1 =~= e1.remove(e1.len() - 1));
        assert(r1.to_multiset() =~= e1.to_multiset().remove(a)) by {
            assert(e1.remove(e1.len() - 1).to_multiset() =~= e1.to_multiset().remove(
                e1[e1.len() - 1],
            ));
        }
        assert(r2.to_multiset() =~= e2.to_multiset().remove(a));
        lemma_files_dirs_perm(r1, r2);
        lemma_files_dirs_remove(e1, e1.len() - 1);
        lemma_files_dirs_remove(e2, k);
    }
}

/// Descending entries with the same contents descend to the same tails.
proof fn lemma_tails_perm(d1: Seq<EntryView>, d2: Seq<EntryView>)
    requires
        d1.to_multiset() == d2.to_multiset(),
    ensures
        tails_of(d1).to_multiset() == tails_of(d2).to_multiset(),
    decreases d1.len(),
{
    broadcast use vstd::seq_lib::group_to_multiset_ensures;
    broadcast use vstd::multiset::group_multiset_axioms;

    if d1.len() == 0 {
        assert(d1.to_multiset().len() == d1.len());
        assert(d2.to_multiset().len() == d2.len());
        assert(d1 =~= d2);
    } else {
        let a = d1.last();
        assert(d1.to_multiset().count(a) >= 1) by {
            assert(d1.contains(a));
        }
        assert(d2.contains(a));
        let k = choose|k: int| 0 <= k < d2.len() && d2[k] == a;
        let r1 = d1.drop_last();
        let r2 = d2.remove(k);
        assert(r1 =~= d1.remove(d1.len() - 1));
        assert(r1.to_multiset() =~= d1.to_multiset().remove(a)) by {
            assert(d1.remove(d1.len() - 1).to_multiset() =~= d1.to_multiset().remove(
                d1[d1.len() - 1],
            ));
        }
        assert(r2.to_multiset() =~= d2.to_multiset().remove(a));
        lemma_tails_perm(r1, r2);
        assert(tails_of(r1) =~= tails_of(d1).remove(d1.len() - 1));
        assert(tails_of(r2) =~= tails_of(d2).remove(k));
        assert(tails_of(d1).remove(d1.len() - 1).to_multiset() =~= tails_of(
            d1,
        ).to_multiset().remove(tails_of(d1)[d1.len() - 1]));
        assert(tails_of(d2).remove(k).to_multiset() =~= tails_of(d2).to_multiset().remove(
            tails_of(d2)[k],
        ));
        assert(tails_of(d1)[d1.len() - 1] == tails_of(d2)[k]);
        let v = tails_of(d1)[d1.len() - 1];
        assert(tails_of(d1).contains(v));
        assert(tails_of(d2).contains(v));
        assert(tails_of(d1).to_multiset().count(v) > 0);
        assert(tails_of(d2).to_multiset().count(v) > 0);
        assert(tails_of(d1).to_multiset() =~= tails_of(r1).to_multiset().insert(v));
        assert(tails_of(d2).to_multiset() =~= tails_of(r2).to_multiset().insert(v));
        assert(tails_of(d1).to_multiset() =~= tails_of(d2).to_multiset());
    }
}

/// Inserting a node in display order adds exactly that node.
proof fn lemma_sorted_insert_multiset(s: Seq<FileTreeNodeView>, n: FileTreeNodeView)
    ensures
        sorted_insert(s, n).to_multiset() == s.to_multiset().insert(n),
    decreases s.len(),
{
    broadcast use vstd::seq_lib::group_to_multiset_ensures;
    broadcast use vstd::multiset::group_multiset_axioms;

    if s.len() == 0 {
        assert(sorted_insert(s, n) =~= Seq::<FileTreeNodeView>::empty().push(n));
        assert(Seq::<FileTreeNodeView>::empty().to_multiset() =~= Multiset::<
            FileTreeNodeView,
        >::empty());
    } else if node_lt(n, s[0]) {
        assert(seq![n] + s =~= seq![n] + s);
        vstd::seq_lib::lemma_multiset_commutative(seq![n], s);
        assert(seq![n].to_multiset() =~= Multiset::<FileTreeNodeView>::empty().insert(n)) by {
            assert(seq![n] =~= Seq::<FileTreeNodeView>::empty().push(n));
            assert(Seq::<FileTreeNodeView>::empty().to_multiset() =~= Multiset::<
                FileTreeNodeView,
            >::empty());
        }
    } else {
        let t = s.drop_first();
        lemma_sorted_insert_multiset(t, n);
        vstd::seq_lib::lemma_multiset_commutative(seq![s[0]], sorted_insert(t, n));
        vstd::seq_lib::lemma_multiset_commutative(seq![s[0]], t);
        assert(seq![s[0]] + t =~= s);
        assert(seq![s[0]].to_multiset() =~= Multiset::<FileTreeNodeView>::empty().insert(
            s[0],
        )) by {
            assert(seq![s[0]] =~= Seq::<FileTreeNodeView>::empty().push(s[0]));
            assert(Seq::<FileTreeNodeView>::empty().to_multiset() =~= Multiset::<
                FileTreeNodeView,
            >::empty());
        }
    }
}

/// The nodes the given names become.
pub open spec fn nodes_of_names(
    names: Seq<Seq<char>>,
    entries: Seq<EntryView>,
    prefix: Seq<char>,
) -> Seq<FileTreeNodeView> {
    names.map_values(|nm: Seq<char>| node_for(entries, nm, prefix))
}

/// One level holds exactly the nodes of its names, however they were
/// inserted.
proof fn lemma_build_nodes_multiset(
    names: Seq<Seq<char>>,
    entries: Seq<EntryView>,
    prefix: Seq<char>,
)
    ensures
        build_nodes(names, entries, prefix).to_multiset() == nodes_of_names(
            names,
            entries,
            prefix,
        ).to_multiset(),
    decreases names.len(),
{
    broadcast use vstd::seq_lib::group_to_multiset_ensures;
    broadcast use vstd::multiset::group_multiset_axioms;

    if names.len() == 0 {
        assert(nodes_of_names(names, entries, prefix) =~= Seq::<FileTreeNodeView>::empty());
    } else {
        let pre = names.drop_last();
        lemma_build_nodes_multiset(pre, entries, prefix);
        lemma_sorted_insert_multiset(
            build_nodes(pre, entries, prefix),
            node_for(entries, names.last(), prefix),
        );
        assert(nodes_of_names(names, entries, prefix) =~= nodes_of_names(
            pre,
            entries,
            prefix,
        ).push(node_for(entries, names.last(), prefix)));
    }
}

/// Two display-ordered levels with the same nodes are the same level.
proof fn lemma_sorted_unique_nodes(x: Seq<FileTreeNodeView>, y: Seq<FileTreeNodeView>)
    requires
        siblings_ordered(x),
        siblings_ordered(y),
        x.to_multiset() == y.to_multiset(),
    ensures
        x =~= y,
    decreases x.len(),
{
    broadcast use vstd::seq_lib::group_to_multiset_ensures;
    broadcast use vstd::multiset::group_multiset_axioms;

    if x.len() == 0 {
        assert(x.to_multiset().len() == x.len());
        assert(y.to_multiset().len() == y.len());
    } else {
        assert(y.len() > 0) by {
            assert(x.to_multiset().len() == x.len());
            assert(y.to_multiset().len() == y.len());
        }
        assert(x[0] == y[0]) by {
            if x[0] != y[0] {
                assert(x.contains(y[0])) by {
                    assert(y.contains(y[0]));
                    assert(y.to_multiset().count(y[0]) > 0);
                    assert(x.to_multiset().count(y[0]) > 0);
                }
                let i = choose|i: int| 0 <= i < x.len() && x[i] == y[0];
                assert(i != 0);
                assert(node_lt(x[0], x[i]));
                assert(y.contains(x[0])) by {
                    assert(x.contains(x[0]));
                    assert(x.to_multiset().count(x[0]) > 0);
                    assert(y.to_multiset().count(x[0]) > 0);
                }
                let j = choose|j: int| 0 <= j < y.len() && y[j] == x[0];
                assert(j != 0);
                assert(node_lt(y[0], y[j]));
                lemma_node_lt_asymmetric(x[0], y[0]);
            }
        }
        let tx = x.drop_first();
        let ty = y.drop_first();
        assert(tx =~= x.remove(0));
        assert(ty =~= y.remove(0));
        assert(tx.to_multiset() =~= x.to_multiset().remove(x[0])) by {
            assert(x.remove(0).to_multiset() =~= x.to_multiset().remove(x[0]));
        }
        assert(ty.to_multiset() =~= y.to_multiset().remove(y[0])) by {
            assert(y.remove(0).to_multiset() =~= y.to_multiset().remove(y[0]));
        }
        assert(siblings_ordered(tx)) by {
            assert forall|i: int, j: int| 0 <= i < j < tx.len() implies node_lt(
                #[trigger] tx[i],
                #[trigger] tx[j],
            ) by {
                assert(tx[i] == x[i + 1] && tx[j] == x[j + 1]);
            }
        }
        assert(siblings_ordered(ty)) by {
            assert forall|i: int, j: int| 0 <= i < j < ty.len() implies node_lt(
                #[trigger] ty[i],
                #[trigger] ty[j],
            ) by {
                assert(ty[i] == y[i + 1] && ty[j] == y[j + 1]);
            }
        }
        lemma_sorted_unique_nodes(tx, ty);
        assert(x =~= seq![x[0]] + tx);
        assert(y =~= seq![y[0]] + ty);
        assert(x =~= y);
    }
}

/// Under compatible entries, a name's group is uniform: either one entry
/// that ends here, or only entries that descend.
proof fn lemma_group_shape(entries: Seq<EntryView>, name: Seq<char>)
    requires
        entries_wf(entries),
        entries_compatible(entries),
        with_head(entries, name).len() > 0,
    ensures
        with_head(entries, name)[0].segs.len() >= 1,
        with_head(entries, name)[0].segs.len() == 1 ==> with_head(entries, name).len() == 1
            && files_of(with_head(entries, name)) =~= with_head(entries, name) && dirs_of(
            with_head(entries, name),
        ).len() == 0,
        with_head(entries, name)[0].segs.len() > 1 ==> files_of(with_head(entries, name)).len()
            == 0 && dirs_of(with_head(entries, name)) =~= with_head(entries, name) && (forall|
            v: int,
        |
            0 <= v < with_head(entries, name).len() ==> (#[trigger] with_head(
                entries,
                name,
            )[v]).segs.len() > 1),
{
    let sub = with_head(entries, name);
    assert forall|v: int| 0 <= v < sub.len() implies (#[trigger] sub[v]).segs.len() >= 1 by {
        lemma_with_head_mem(entries, name, v);
        let w = choose|w: int| 0 <= w < entries.len() && entries[w] == sub[v];
    }
    if sub[0].segs.len() == 1 {
        assert(sub.len() == 1) by {
            if sub.len() > 1 {
                lemma_with_head_two(entries, name, 0, 1);
                let (i, j) = choose|i: int, j: int|
                    #![auto]
                    0 <= i < j < entries.len() && entries[i] == sub[0] && entries[j] == sub[1];
                lemma_with_head_mem(entries, name, 0);
                lemma_with_head_mem(entries, name, 1);
                assert(seg_prefix(entries[i].segs, entries[j].segs)) by {
                    assert(sub[0].segs[0] == name && sub[1].segs[0] == name);
                }
            }
        }
        assert(files_of(sub) =~= sub) by {
            reveal(Seq::filter);
            assert(sub =~= sub.drop_last().push(sub[0]));
            assert(sub.drop_last() =~= Seq::<EntryView>::empty());
        }
        assert(dirs_of(sub).len() == 0) by {
            reveal(Seq::filter);
            assert(sub =~= sub.drop_last().push(sub[0]));
            assert(sub.drop_last() =~= Seq::<EntryView>::empty());
            lemma_files_dirs_push(Seq::<EntryView>::empty(), sub[0]);
            assert(dirs_of(Seq::<EntryView>::empty()) =~= Seq::<EntryView>::empty());
            assert(dirs_of(Seq::<EntryView>::empty().push(sub[0])) =~= Seq::<EntryView>::empty());
        }
    } else {
        assert(files_of(sub).len() == 0) by {
            if files_of(sub).len() > 0 {
                lemma_files_mem(sub, 0);
                let v = choose|v: int| 0 <= v < sub.len() && #[trigger] sub[v] == files_of(sub)[0];
                assert(v != 0);
                lemma_with_head_two(entries, name, 0, v);
                let (i, j) = choose|i: int, j: int|
                    #![auto]
                    0 <= i < j < entries.len() && entries[i] == sub[0] && entries[j] == sub[v];
                lemma_with_head_mem(entries, name, 0);
                lemma_with_head_mem(entries, name, v);
                assert(sub[v].segs.len() == 1);
                assert(seg_prefix(entries[j].segs, entries[i].segs));
            }
        }
        assert forall|v: int| 0 <= v < sub.len() implies (#[trigger] sub[v]).segs.len() > 1 by {
            if sub[v].segs.len() == 1 {
                broadcast use vstd::seq_lib::group_filter_ensures;

                Seq::lemma_filter_contains(sub, |e: EntryView| e.segs.len() == 1, v);
            }
        }
        lemma_dirs_all(sub);
    }
}

/// Name lists with the same names, mapped to equal nodes, give the same
/// nodes.
proof fn lemma_nodes_of_names_perm(
    n1: Seq<Seq<char>>,
    n2: Seq<Seq<char>>,
    e1: Seq<EntryView>,
    e2: Seq<EntryView>,
    prefix: Seq<char>,
)
    requires
        n1.to_multiset() == n2.to_multiset(),
        forall|nm: Seq<char>|
            n1.contains(nm) ==> node_for(e1, nm, prefix) == node_for(e2, nm, prefix),
    ensures
        nodes_of_names(n1, e1, prefix).to_multiset() == nodes_of_names(n2, e2, prefix).to_multiset(),
    decreases n1.len(),
{
    broadcast use vstd::seq_lib::group_to_multiset_ensures;
    broadcast use vstd::multiset::group_multiset_axioms;

    if n1.len() == 0 {
        assert(n1.to_multiset().len() == n1.len());
        assert(n2.to_multiset().len() == n2.len());
        assert(n1 =~= n2);
    } else {
        let a = n1.last();
        assert(n1.to_multiset().count(a) >= 1) by {
            assert(n1.contains(a));
        }
        assert(n2.contains(a));
        let k = choose|k: int| 0 <= k < n2.len() && n2[k] == a;
        let r1 = n1.drop_last();
        let r2 = n2.remove(k);
        assert(r1 =~= n1.remove(n1.len() - 1));
        assert(r1.to_multiset() =~= n1.to_multiset().remove(a)) by {
            assert(n1.remove(n1.len() - 1).to_multiset() =~= n1.to_multiset().remove(
                n1[n1.len() - 1],
            ));
        }
        assert(r2.to_multiset() =~= n2.to_multiset().remove(a));
        assert forall|nm: Seq<char>| r1.contains(nm) implies node_for(e1, nm, prefix) == node_for(
            e2,
            nm,
            prefix,
        ) by {
            let w = choose|w: int| 0 <= w < r1.len() && r1[w] == nm;
            assert(n1[w] == nm);
            assert(n1.contains(nm));
        }
        lemma_nodes_of_names_perm(r1, r2, e1, e2, prefix);
        assert(nodes_of_names(r1, e1, prefix) =~= nodes_of_names(n1, e1, prefix).remove(
            n1.len() - 1,
        ));
        assert(nodes_of_names(r2, e2, prefix) =~= nodes_of_names(n2, e2, prefix).remove(k));
        let v = nodes_of_names(n1, e1, prefix)[n1.len() - 1];
        assert(v == node_for(e1, a, prefix));
        assert(node_for(e1, a, prefix) == node_for(e2, a, prefix)) by {
            assert(n1.contains(a));
        }
        assert(nodes_of_names(n2, e2, prefix)[k] == v);
        assert(nodes_of_names(n1, e1, prefix).remove(n1.len() - 1).to_multiset()
            =~= nodes_of_names(n1, e1, prefix).to_multiset().remove(v));
        assert(nodes_of_names(n2, e2, prefix).remove(k).to_multiset() =~= nodes_of_names(
            n2,
            e2,
            prefix,
        ).to_multiset().remove(v));
        assert(nodes_of_names(n1, e1, prefix).contains(v));
        assert(nodes_of_names(n2, e2, prefix).contains(v));
        assert(nodes_of_names(n1, e1, prefix).to_multiset().count(v) > 0);
        assert(nodes_of_names(n2, e2, prefix).to_multiset().count(v) > 0);
        assert(nodes_of_names(n1, e1, prefix).to_multiset() =~= nodes_of_names(
            r1,
            e1,
            prefix,
        ).to_multiset().insert(v));
        assert(nodes_of_names(n2, e2, prefix).to_multiset() =~= nodes_of_names(
            r2,
            e2,
            prefix,
        ).to_multiset().insert(v));
        assert(nodes_of_names(n1, e1, prefix).to_multiset() =~= nodes_of_names(
            n2,
            e2,
            prefix,
        ).to_multiset());
    }
}

/// Distinct-name lists with the same members hold the same names.
proof fn lemma_distinct_same_members(h1: Seq<Seq<char>>, h2: Seq<Seq<char>>)
    requires
        forall|i: int, j: int| 0 <= i < j < h1.len() ==> #[trigger] h1[i] != #[trigger] h1[j],
        forall|i: int, j: int| 0 <= i < j < h2.len() ==> #[trigger] h2[i] != #[trigger] h2[j],
        forall|nm: Seq<char>| h1.contains(nm) <==> h2.contains(nm),
    ensures
        h1.to_multiset() == h2.to_multiset(),
{
    broadcast use vstd::seq_lib::group_to_multiset_ensures;
    broadcast use vstd::multiset::group_multiset_axioms;

    assert(h1.no_duplicates()) by {
        assert forall|i: int, j: int|
            0 <= i < h1.len() && 0 <= j < h1.len() && i != j implies h1[i] != h1[j] by {
            if i < j {
            } else {
            }
        }
    }
    assert(h2.no_duplicates()) by {
        assert forall|i: int, j: int|
            0 <= i < h2.len() && 0 <= j < h2.len() && i != j implies h2[i] != h2[j] by {
            if i < j {
            } else {
            }
        }
    }
    h1.lemma_multiset_has_no_duplicates();
    h2.lemma_multiset_has_no_duplicates();
    assert forall|nm: Seq<char>| true implies #[trigger] h1.to_multiset().count(nm)
        == h2.to_multiset().count(nm) by {
        if h1.contains(nm) {
            assert(h1.to_multiset().count(nm) > 0);
            assert(h1.to_multiset().contains(nm));
            assert(h2.contains(nm));
            assert(h2.to_multiset().count(nm) > 0);
            assert(h2.to_multiset().contains(nm));
        } else {
            assert(!h2.contains(nm));
            assert(h1.to_multiset().count(nm) == 0);
            assert(h2.to_multiset().count(nm) == 0);
        }
    }
    assert(h1.to_multiset() =~= h2.to_multiset());
}

/// One name's node does not depend on the order of the entries.
proof fn lemma_node_for_perm(
    e1: Seq<EntryView>,
    e2: Seq<EntryView>,
    name: Seq<char>,
    prefix: Seq<char>,
)
    requires
        entries_wf(e1),
        entries_wf(e2),
        entries_compatible(e1),
        entries_compatible(e2),
        e1.to_multiset() == e2.to_multiset(),
        heads(e1).contains(name),
        heads(e2).contains(name),
    ensures
        node_for(e1, name, prefix) == node_for(e2, name, prefix),
    decreases max_segs(e1), 0nat, 0nat,
{
    broadcast use vstd::seq_lib::group_to_multiset_ensures;
    broadcast use vstd::multiset::group_multiset_axioms;

    let sub1 = with_head(e1, name);
    let sub2 = with_head(e2, name);
    lemma_heads_occur(e1, name);
    lemma_heads_occur(e2, name);
    lemma_with_head_perm(e1, e2, name);
    lemma_group_shape(e1, name);
    lemma_group_shape(e2, name);
    assert(sub2.contains(sub1[0])) by {
        assert(sub1.contains(sub1[0]));
        assert(sub1.to_multiset().count(sub1[0]) > 0);
        assert(sub2.to_multiset().count(sub1[0]) > 0);
    }
    let v = choose|v: int| 0 <= v < sub2.len() && sub2[v] == sub1[0];
    if sub1[0].segs.len() == 1 {
        assert(sub2[0].segs.len() == 1) by {
            if sub2[0].segs.len() > 1 {
                assert(sub2[v].segs.len() > 1);
            }
        }
        assert(sub2.len() == 1 && sub1.len() == 1);
        assert(sub2[0] == sub1[0]) by {
            assert(v == 0);
        }
        assert(node_for(e1, name, prefix) == node_for(e2, name, prefix));
    } else {
        assert(sub2[0].segs.len() > 1) by {
            if sub2[0].segs.len() == 1 {
                assert(sub2.len() == 1);
                assert(v == 0);
                assert(sub1[0].segs.len() == 1);
            }
        }
        let dirs1 = dirs_of(sub1);
        let dirs2 = dirs_of(sub2);
        assert(dirs1 =~= sub1 && dirs2 =~= sub2);
        assert(dirs1.to_multiset() == dirs2.to_multiset());
        lemma_tails_perm(dirs1, dirs2);
        assert(dirs1.len() > 0 && dirs2.len() > 0);
        lemma_tails_decrease(e1, name);
        lemma_tails_decrease(e2, name);
        lemma_tails_compatible(e1, name);
        lemma_tails_compatible(e2, name);
        lemma_level_perm(tails_of(dirs1), tails_of(dirs2), prefix + name + seq!['/']);
        assert(node_for(e1, name, prefix) == node_for(e2, name, prefix));
    }
}

/// One level of the canonical tree does not depend on the order of the
/// entries.
proof fn lemma_level_perm(e1: Seq<EntryView>, e2: Seq<EntryView>, prefix: Seq<char>)
    requires
        entries_wf(e1),
        entries_wf(e2),
        entries_compatible(e1),
        entries_compatible(e2),
        e1.to_multiset() == e2.to_multiset(),
    ensures
        spec_build_level(e1, prefix) == spec_build_level(e2, prefix),
    decreases max_segs(e1), 1nat, 0nat,
{
    broadcast use vstd::seq_lib::group_to_multiset_ensures;
    broadcast use vstd::multiset::group_multiset_axioms;

    lemma_heads_distinct(e1);
    lemma_heads_distinct(e2);
    lemma_build_nodes_ordered(heads(e1), e1, prefix);
    lemma_build_nodes_ordered(heads(e2), e2, prefix);
    assert forall|nm: Seq<char>| true implies (heads(e1).contains(nm) <==> heads(e2).contains(
        nm,
    )) by {
        lemma_heads_member(e1, nm);
        lemma_heads_member(e2, nm);
        if exists|i: int| 0 <= i < e1.len() && (#[trigger] e1[i]).segs[0] == nm {
            let i = choose|i: int| 0 <= i < e1.len() && (#[trigger] e1[i]).segs[0] == nm;
            assert(e1.contains(e1[i]));
            assert(e1.to_multiset().count(e1[i]) > 0);
            assert(e2.to_multiset().count(e1[i]) > 0);
            assert(e2.contains(e1[i]));
            let j = choose|j: int| 0 <= j < e2.len() && e2[j] == e1[i];
            assert(e2[j].segs[0] == nm);
        }
        if exists|j: int| 0 <= j < e2.len() && (#[trigger] e2[j]).segs[0] == nm {
            let j = choose|j: int| 0 <= j < e2.len() && (#[trigger] e2[j]).segs[0] == nm;
            assert(e2.contains(e2[j]));
            assert(e2.to_multiset().count(e2[j]) > 0);
            assert(e1.to_multiset().count(e2[j]) > 0);
            assert(e1.contains(e2[j]));
            let i = choose|i: int| 0 <= i < e1.len() && e1[i] == e2[j];
            assert(e1[i].segs[0] == nm);
        }
    }
    lemma_distinct_same_members(heads(e1), heads(e2));
    assert forall|nm: Seq<char>| heads(e1).contains(nm) implies node_for(e1, nm, prefix)
        == node_for(e2, nm, prefix) by {
        lemma_node_for_perm(e1, e2, nm, prefix);
    }
    lemma_nodes_of_names_perm(heads(e1), heads(e2), e1, e2, prefix);
    lemma_build_nodes_multiset(heads(e1), e1, prefix);
    lemma_build_nodes_multiset(heads(e2), e2, prefix);
    lemma_sorted_unique_nodes(spec_build_level(e1, prefix), spec_build_level(e2, prefix));
}

/// Reordering the changed files leaves their entries' contents unchanged.
proof fn lemma_entries_perm(f1: Seq<FileChange>, f2: Seq<FileChange>)
    requires
        f1.to_multiset() == f2.to_multiset(),
    ensures
        entries_of_files(f1).to_multiset() == entries_of_files(f2).to_multiset(),
    decreases f1.len(),
{
    broadcast use vstd::seq_lib::group_to_multiset_ensures;
    broadcast use vstd::multiset::group_multiset_axioms;

    if f1.len() == 0 {
        assert(f1.to_multiset().len() == f1.len());
        assert(f2.to_multiset().len() == f2.len());
        assert(f1 =~= f2);
    } else {
        let a = f1.last();
        assert(f1.to_multiset().count(a) >= 1) by {
            assert(f1.contains(a));
        }
        assert(f2.contains(a));
        let k = choose|k: int| 0 <= k < f2.len() && f2[k] == a;
        let r1 = f1.drop_last();
        let r2 = f2.remove(k);
        assert(r1 =~= f1.remove(f1.len() - 1));
        assert(r1.to_multiset() =~= f1.to_multiset().remove(a)) by {
            assert(f1.remove(f1.len() - 1).to_multiset() =~= f1.to_multiset().remove(
                f1[f1.len() - 1],
            ));
        }
        assert(r2.to_multiset() =~= f2.to_multiset().remove(a));
        lemma_entries_perm(r1, r2);
        assert(entries_of_files(r1) =~= entries_of_files(f1).remove(f1.len() - 1));
        assert(entries_of_files(r2) =~= entries_of_files(f2).remove(k));
        let v = entries_of_files(f1)[f1.len() - 1];
        assert(entries_of_files(f2)[k] == v);
        assert(entries_of_files(f1).remove(f1.len() - 1).to_multiset() =~= entries_of_files(
            f1,
        ).to_multiset().remove(v));
        assert(entries_of_files(f2).remove(k).to_multiset() =~= entries_of_files(
            f2,
        ).to_multiset().remove(v));
        assert(entries_of_files(f1).contains(v));
        assert(entries_of_files(f2).contains(v));
        assert(entries_of_files(f1).to_multiset().count(v) > 0);
        assert(entries_of_files(f2).to_multiset().count(v) > 0);
        assert(entries_of_files(f1).to_multiset() =~= entries_of_files(r1).to_multiset().insert(
            v,
        ));
        assert(entries_of_files(f2).to_multiset() =~= entries_of_files(r2).to_multiset().insert(
            v,
        ));
        assert(entries_of_files(f1).to_multiset() =~= entries_of_files(f2).to_multiset());
    }
}

/// Compatibility is a property of the contents, not the order.
proof fn lemma_compat_transfer(e1: Seq<EntryView>, e2: Seq<EntryView>)
    requires
        entries_compatible(e1),
        e1.to_multiset() == e2.to_multiset(),
    ensures
        entries_compatible(e2),
{
    broadcast use vstd::seq_lib::group_to_multiset_ensures;
    broadcast use vstd::multiset::group_multiset_axioms;

    assert forall|i: int, j: int|
        0 <= i < e2.len() && 0 <= j < e2.len() && i != j implies !seg_prefix(
        (#[trigger] e2[i]).segs,
        (#[trigger] e2[j]).segs,
    ) by {
        let a = e2[i];
        let b = e2[j];
        if seg_prefix(a.segs, b.segs) {
            if a == b {
                assert(e2.to_multiset().count(a) >= 2) by {
                    let r = e2.remove(i);
                    assert(r.to_multiset() =~= e2.to_multiset().remove(a));
                    let j2 = if j < i {
                        j
                    } else {
                        j - 1
                    };
                    assert(r[j2] == b);
                    assert(r.contains(a));
                    assert(r.to_multiset().count(a) > 0);
                }
                lemma_count_two(e1, a);
                let (p, q) = choose|p: int, q: int|
                    #![auto]
                    0 <= p < e1.len() && 0 <= q < e1.len() && p != q && e1[p] == a && e1[q] == a;
                assert(seg_prefix(e1[p].segs, e1[q].segs));
            } else {
                assert(e2.contains(a) && e2.contains(b));
                assert(e2.to_multiset().count(a) > 0 && e2.to_multiset().count(b) > 0);
                assert(e1.to_multiset().count(a) > 0 && e1.to_multiset().count(b) > 0);
                assert(e1.contains(a) && e1.contains(b));
                let p = choose|p: int| 0 <= p < e1.len() && e1[p] == a;
                let q = choose|q: int| 0 <= q < e1.len() && e1[q] == b;
                assert(p != q);
                assert(seg_prefix(e1[p].segs, e1[q].segs));
            }
        }
    }
}

/// Tree ordering, the permutation half: two file lists with the same
/// files, in any order, build the identical tree — and so flatten to the
/// identical display list. Holds of compatible file lists (distinct paths,
/// none nested under another); with colliding paths the last written
/// status wins, which genuinely depends on the order.
pub proof fn lemma_build_tree_permutation(files1: Seq<FileChange>, files2: Seq<FileChange>)
    requires
        files_compatible(files1),
        files1.to_multiset() == files2.to_multiset(),
    ensures
        spec_build_tree(files1) == spec_build_tree(files2),
{
    let e1 = entries_of_files(files1);
    let e2 = entries_of_files(files2);
    lemma_entries_perm(files1, files2);
    lemma_compat_transfer(e1, e2);
    assert(entries_wf(e1)) by {
        assert forall|k: int| 0 <= k < e1.len() implies (#[trigger] e1[k]).segs.len() >= 1 by {
            crate::text::lemma_spec_split_len(files1[k].path@, '/');
        }
    }
    assert(entries_wf(e2)) by {
        assert forall|k: int| 0 <= k < e2.len() implies (#[trigger] e2[k]).segs.len() >= 1 by {
            crate::text::lemma_spec_split_len(files2[k].path@, '/');
        }
    }
    lemma_level_perm(e1, e2, Seq::empty());
}

/// Build the hierarchical file tree of a list of changed files: one node
/// per path segment, levels ordered folders before files and then
/// case-insensitively by name.
#[verifier::loop_isolation(false)]
pub fn build_file_tree(files: &Vec<FileChange>) -> (r: Vec<FileTreeNode>)
    ensures
        nodes_view(r@) == spec_build_tree(files@),
{
    let mut entries: Vec<PathEntry> = Vec::new();
    let mut i: usize = 0;
    proof {
        assert(entries_view(entries@) =~= files@.take(0).map_values(
            |f: FileChange| entry_of_change(f),
        ));
    }
    while i < files.len()
        invariant
            0 <= i <= files@.len(),
            entries_view(entries@) == files@.take(i as int).map_values(
                |f: FileChange| entry_of_change(f),
            ),
        decreases files@.len() - i,
    {
        let f = &files[i];
        let segs = split_str(f.path.as_str(), '/');
        let e = PathEntry {
            segs,
            full: f.path.clone(),
            status: f.status.as_str().to_owned(),
        };
        let ghost evw = entry_view(e);
        proof {
            assert(evw.segs =~= spec_split(files@[i as int].path@, '/'));
            assert(evw == entry_of_change(files@[i as int]));
        }
        let ghost pre = entries_view(entries@);
        entries.push(e);
        proof {
            let m = |f: FileChange| entry_of_change(f);
            assert(entries_view(entries@) =~= pre.push(evw));
            assert(files@.take(i + 1int).map_values(m) =~= files@.take(i as int).map_values(
                m,
            ).push(m(files@[i as int])));
            assert(entries_view(entries@) =~= files@.take(i + 1int).map_values(m));
        }
        i = i + 1;
    }
    proof {
        assert(files@.take(files@.len() as int) =~= files@);
        let ev = entries_view(entries@);
        assert forall|k: int| 0 <= k < ev.len() implies (#[trigger] ev[k]).segs.len() >= 1 by {
            crate::text::lemma_spec_split_len(files@[k].path@, '/');
        }
    }
    let root_prefix = String::new();
    proof {
        assert(root_prefix@ =~= Seq::<char>::empty());
    }
    build_level(entries, root_prefix)
}

} // verus!
