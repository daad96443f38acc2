//! The layer tree: the flat layer records of a document, grouped by their
//! folder markers.
//!
//! Records are stored bottom-up.  A folder's open or closed marker comes
//! after its members and a bounding divider before them, so reading the
//! records from the top down, a folder marker opens a group and a bounding
//! divider closes the innermost open one.  The tree holds the records by
//! their position in the flat list; bounding dividers leave no node.

use vstd::prelude::*;
use crate::error::{decimal, decimal_string, error_detail, invalid_format, PsdError, PsdResult};
use crate::types::SectionDividerType;
use vstd::string::StringExecFns;

verus! {

/// A record in the layer tree: its position in the flat list, whether a
/// group is open in the panel (`None` for a plain layer, whose own setting
/// is kept), and a group's members in file order (`None` for a plain
/// layer; an empty group keeps `Some` of no members).
#[derive(Debug, PartialEq)]
pub struct LayerNode {
    pub index: usize,
    pub opened: Option<bool>,
    pub children: Option<Vec<LayerNode>>,
}

/// Whether a divider kind opens a group.
pub open spec fn opens_group(k: SectionDividerType) -> bool {
    k is OpenFolder || k is ClosedFolder
}

/// The number of groups left open after reading the top `m` records of
/// `kinds` from the top down; `None` once a bounding divider came with no
/// group open.
pub open spec fn folder_depth(kinds: Seq<SectionDividerType>, m: nat) -> Option<nat>
    decreases m,
{
    if m == 0 {
        Some(0)
    } else {
        match folder_depth(kinds, (m - 1) as nat) {
            None => None,
            Some(d) => {
                let k = kinds[kinds.len() - m];
                if k is BoundingSectionDivider {
                    if d == 0 {
                        None
                    } else {
                        Some((d - 1) as nat)
                    }
                } else if opens_group(k) {
                    Some(d + 1)
                } else {
                    Some(d)
                }
            },
        }
    }
}

/// Whether every bounding divider closes an open group and every group is
/// closed.
pub open spec fn markers_balanced(kinds: Seq<SectionDividerType>) -> bool {
    folder_depth(kinds, kinds.len()) == Some(0nat)
}

/// The message for groups that no bounding divider closes.
pub open spec fn unclosed_message(d: nat) -> Seq<char> {
    "Unbalanced folder markers: "@ + decimal(d) + " folder(s) never closed"@
}

/// What the tree shows of one record: its position, whether its group is
/// open (`None` for a plain layer), and whether it is a group.
pub type RecordLabel = (int, Option<bool>, bool);

/// One step of reading the tree back as records: `None` where a group
/// opens (its bounding divider), `Some` with a record's label otherwise.
pub type TreeToken = Option<RecordLabel>;

/// The label that a record of divider kind `k` at position `i` gets in
/// the tree.
pub open spec fn record_label(k: SectionDividerType, i: int) -> RecordLabel {
    (i, if opens_group(k) {
        Some(k is OpenFolder)
    } else {
        None
    }, opens_group(k))
}

/// The label of a node as the tree holds it.
pub open spec fn node_label(node: LayerNode) -> RecordLabel {
    (node.index as int, node.opened, node.children is Some)
}

/// The label of a folder marker once its group is built.
spec fn group_label(node: LayerNode) -> RecordLabel {
    (node.index as int, node.opened, true)
}

/// The records from `i` up to `n`, in file order, as tree tokens: a
/// bounding divider opens a group, any other record gives its label.
pub open spec fn kept_records(kinds: Seq<SectionDividerType>, i: int, n: int) -> Seq<TreeToken>
    decreases n - i,
{
    if i >= n {
        Seq::empty()
    } else if kinds[i] is BoundingSectionDivider {
        seq![None] + kept_records(kinds, i + 1, n)
    } else {
        seq![Some(record_label(kinds[i], i))] + kept_records(kinds, i + 1, n)
    }
}

/// A forest of nodes read back as records: each group opens, then come
/// its members, then the group's own node.  The tokens bracket every
/// group's members between its opening and its label, so they fix the
/// shape of the forest.
pub open spec fn tree_records(nodes: Seq<LayerNode>) -> Seq<TreeToken>
    decreases nodes,
{
    if nodes.len() == 0 {
        Seq::empty()
    } else {
        let last = nodes[nodes.len() - 1];
        let members = match last.children {
            Some(c) => {
                proof {
                    assert(decreases_to!(nodes => nodes[nodes.len() - 1]));
                }
                seq![None] + tree_records(c@)
            },
            None => Seq::empty(),
        };
        tree_records(nodes.drop_last()) + members + seq![Some(node_label(last))]
    }
}

/// The labels held by the frames still open while grouping: the
/// innermost frame's nodes (stored last-read first), its group's marker,
/// then the frames around it.
spec fn stack_records(frames: Seq<Vec<LayerNode>>, folders: Seq<LayerNode>) -> Seq<TreeToken>
    decreases folders.len(),
{
    if frames.len() == 0 {
        Seq::empty()
    } else if folders.len() == 0 || frames.len() == 1 {
        tree_records(frames[frames.len() - 1]@.reverse())
    } else {
        tree_records(frames[frames.len() - 1]@.reverse()) + seq![Some(group_label(folders[folders.len() - 1]))]
            + stack_records(frames.drop_last(), folders.drop_last())
    }
}

proof fn lemma_tree_records_concat(a: Seq<LayerNode>, b: Seq<LayerNode>)
    ensures
        tree_records(a + b) == tree_records(a) + tree_records(b),
    decreases b.len(),
{
    if b.len() == 0 {
        assert(a + b =~= a);
        assert(tree_records(b) =~= Seq::<TreeToken>::empty());
    } else {
        lemma_tree_records_concat(a, b.drop_last());
        assert((a + b).drop_last() =~= a + b.drop_last());
        assert((a + b)[(a + b).len() - 1] == b[b.len() - 1]);
        let last = b[b.len() - 1];
        let members = match last.children {
            Some(c) => seq![None] + tree_records(c@),
            None => Seq::empty(),
        };
        assert(tree_records(a + b) == tree_records(a + b.drop_last()) + members + seq![Some(node_label(last))]);
        assert(tree_records(b) == tree_records(b.drop_last()) + members + seq![Some(node_label(last))]);
        assert(tree_records(a + b) =~= tree_records(a) + tree_records(b));
    }
}

proof fn lemma_tree_records_single(x: LayerNode)
    ensures
        tree_records(seq![x]) == (match x.children {
            Some(c) => seq![None] + tree_records(c@),
            None => Seq::empty(),
        }) + seq![Some(node_label(x))],
{
    assert(seq![x].drop_last() =~= Seq::<LayerNode>::empty());
    assert(seq![x][0] == x);
    let members = match x.children {
        Some(c) => seq![None] + tree_records(c@),
        None => Seq::empty(),
    };
    assert(tree_records(Seq::<LayerNode>::empty()) == Seq::<TreeToken>::empty());
    assert(tree_records(seq![x]) == tree_records(Seq::<LayerNode>::empty()) + members + seq![Some(node_label(x))]);
    assert(Seq::<TreeToken>::empty() + members =~= members);
}

proof fn lemma_pushed_front(f: Seq<LayerNode>, x: LayerNode)
    ensures
        tree_records(f.push(x).reverse()) == tree_records(seq![x]) + tree_records(f.reverse()),
{
    assert(f.push(x).reverse() =~= seq![x] + f.reverse());
    lemma_tree_records_concat(seq![x], f.reverse());
}

proof fn lemma_depth_stays_failed(kinds: Seq<SectionDividerType>, m: nat, n: nat)
    requires
        m <= n,
        folder_depth(kinds, m) is None,
    ensures
        folder_depth(kinds, n) is None,
    decreases n - m,
{
    if m < n {
        lemma_depth_stays_failed(kinds, m, (n - 1) as nat);
    }
}

/// The nodes of `v` in reverse order.
fn reversed(v: Vec<LayerNode>) -> (r: Vec<LayerNode>)
    ensures
        r@.len() == v@.len(),
        forall|j: int| 0 <= j < v@.len() ==> #[trigger] r@[j] == v@[v@.len() - 1 - j],
        r@ == v@.reverse(),
{
    let mut rest = v;
    let mut out: Vec<LayerNode> = Vec::new();
    while rest.len() > 0
        invariant
            rest@.len() + out@.len() == v@.len(),
            rest@ == v@.subrange(0, rest@.len() as int),
            forall|j: int| 0 <= j < out@.len() ==> #[trigger] out@[j] == v@[v@.len() - 1 - j],
        decreases rest@.len(),
    {
        let x = rest.pop().unwrap();
        out.push(x);
    }
    assert(out@ =~= v@.reverse());
    out
}

/// Groups the flat records, whose divider kinds are `kinds` in file order,
/// into the layer tree: the roots in file order.
///
/// Each folder marker becomes its group's node, opened as its kind says,
/// with the records between it and its bounding divider as members.
/// A bounding divider with no group open, and a group never closed, are
/// refused.  Read back as tokens, the tree gives the records in file
/// order: each bounding divider opens the group whose marker closes it,
/// so a group's members are exactly the records between its divider and
/// its marker, and the roots are the records outside every group; each
/// record is labelled as its kind says.
#[verifier::rlimit(60)]
#[verifier::spinoff_prover]
pub fn build_layer_hierarchy(kinds: &Vec<SectionDividerType>) -> (r: PsdResult<Vec<LayerNode>>)
    ensures
        r is Ok <==> markers_balanced(kinds@),
        folder_depth(kinds@, kinds@.len()) is None ==> (r matches Err(e) && e is InvalidFormat
            && error_detail(e) == "Bounding section divider without an open folder"@),
        folder_depth(kinds@, kinds@.len()) matches Some(d) ==> (d > 0 ==> (r matches Err(e)
            && e is InvalidFormat && error_detail(e) == unclosed_message(d))),
        r matches Ok(roots) ==> tree_records(roots@) == kept_records(kinds@, 0, kinds@.len() as int),
{
    let n = kinds.len();
    let mut folders: Vec<LayerNode> = Vec::new();
    let mut frames: Vec<Vec<LayerNode>> = Vec::new();
    frames.push(Vec::new());
    let mut i: usize = n;
    while i > 0
        invariant
            n == kinds@.len(),
            i <= n,
            frames@.len() == folders@.len() + 1,
            folder_depth(kinds@, (n - i) as nat) == Some(folders@.len() as nat),
            stack_records(frames@, folders@) == kept_records(kinds@, i as int, n as int),
        decreases i,
    {
        let ghost m: nat = (n - i) as nat;
        let ghost old_frames = frames@;
        let ghost old_folders = folders@;
        let k = kinds[i - 1];
        assert(kinds@[kinds@.len() - (m + 1)] == k);
        match k {
            SectionDividerType::BoundingSectionDivider => {
                if folders.len() == 0 {
                    proof {
                        assert(folder_depth(kinds@, m + 1) is None);
                        lemma_depth_stays_failed(kinds@, m + 1, n as nat);
                    }
                    return Err(invalid_format("Bounding section divider without an open folder"));
                }
                let members = match frames.pop() {
                    Some(f) => f,
                    None => Vec::new(),
                };
                let members = reversed(members);
                let mut group = match folders.pop() {
                    Some(g) => g,
                    None => LayerNode { index: 0, opened: None, children: None },
                };
                group.children = Some(members);
                let mut outer = match frames.pop() {
                    Some(f) => f,
                    None => Vec::new(),
                };
                let ghost g = group;
                let ghost outer_before = outer@;
                outer.push(group);
                frames.push(outer);
                proof {
                    let fd = old_frames[old_frames.len() - 1]@;
                    lemma_tree_records_single(g);
                    lemma_pushed_front(outer_before, g);
                    assert(g.children == Some(members));
                    assert(members@ == fd.reverse());
                    assert(frames@ =~= old_frames.drop_last().drop_last().push(outer));
                    assert(folders@ =~= old_folders.drop_last());
                    assert(frames@.drop_last() =~= old_frames.drop_last().drop_last());
                    assert(outer_before == old_frames.drop_last()[old_frames.len() - 2]@);
                    assert(kept_records(kinds@, i - 1, n as int) == seq![None] + kept_records(kinds@, i as int, n as int));
                    let f1 = old_frames[old_frames.len() - 2]@;
                    let head = tree_records(fd.reverse()) + seq![Some(group_label(old_folders[old_folders.len() - 1]))];
                    assert(g.index == old_folders[old_folders.len() - 1].index && g.opened == old_folders[old_folders.len() - 1].opened);
                    assert(tree_records(seq![g]) =~= seq![None] + head);
                    assert(tree_records(outer@.reverse()) =~= seq![None] + head + tree_records(f1.reverse()));
                    assert(old_frames.drop_last()[old_frames.drop_last().len() - 1]@ == f1);
                    assert(stack_records(old_frames, old_folders) == head + stack_records(
                        old_frames.drop_last(),
                        old_folders.drop_last(),
                    ));
                    if old_folders.len() == 1 {
                        assert(stack_records(old_frames.drop_last(), old_folders.drop_last())
                            == tree_records(f1.reverse()));
                        assert(stack_records(frames@, folders@) == tree_records(outer@.reverse()));
                        assert(stack_records(frames@, folders@) =~= seq![None] + stack_records(old_frames, old_folders));
                    } else {
                        let tail = stack_records(old_frames.drop_last().drop_last(), old_folders.drop_last().drop_last());
                        let mark = seq![Some(group_label(old_folders.drop_last()[old_folders.len() - 2]))];
                        assert(stack_records(old_frames.drop_last(), old_folders.drop_last())
                            == tree_records(f1.reverse()) + mark + tail);
                        assert(folders@.drop_last() =~= old_folders.drop_last().drop_last());
                        assert(stack_records(frames@, folders@) == tree_records(outer@.reverse()) + mark
                            + tail);
                        assert(stack_records(frames@, folders@) =~= seq![None] + stack_records(old_frames, old_folders));
                    }
                }
            },
            SectionDividerType::OpenFolder | SectionDividerType::ClosedFolder => {
                let opened = match k {
                    SectionDividerType::OpenFolder => true,
                    _ => false,
                };
                folders.push(LayerNode { index: i - 1, opened: Some(opened), children: None });
                frames.push(Vec::new());
                proof {
                    assert(frames@.drop_last() =~= old_frames);
                    assert(folders@.drop_last() =~= old_folders);
                    assert(frames@[frames@.len() - 1]@.reverse() =~= Seq::<LayerNode>::empty());
                    assert(tree_records(Seq::<LayerNode>::empty()) == Seq::<TreeToken>::empty());
                    assert(kept_records(kinds@, i - 1, n as int) == seq![Some(record_label(k, i - 1))] + kept_records(kinds@, i as int, n as int));
                    assert(group_label(folders@[folders@.len() - 1]) == record_label(k, i - 1));
                    assert(stack_records(frames@, folders@) =~= seq![Some(record_label(k, i - 1))] + stack_records(old_frames, old_folders));
                }
            },
            SectionDividerType::Other => {
                let mut top = match frames.pop() {
                    Some(f) => f,
                    None => Vec::new(),
                };
                let ghost top_before = top@;
                let node = LayerNode { index: i - 1, opened: None, children: None };
                let ghost gn = node;
                top.push(node);
                frames.push(top);
                proof {
                    lemma_tree_records_single(gn);
                    lemma_pushed_front(top_before, gn);
                    assert(frames@.drop_last() =~= old_frames.drop_last());
                    assert(kept_records(kinds@, i - 1, n as int) == seq![Some(record_label(k, i - 1))] + kept_records(kinds@, i as int, n as int));
                    assert(node_label(gn) == record_label(k, i - 1));
                    assert(Seq::<TreeToken>::empty() + seq![Some(node_label(gn))] =~= seq![Some(node_label(gn))]);
                    assert(stack_records(frames@, folders@) =~= seq![Some(record_label(k, i - 1))] + stack_records(old_frames, old_folders));
                }
            },
        }
        i = i - 1;
    }
    if folders.len() != 0 {
        let digits = decimal_string(folders.len() as u64);
        let msg = String::from_str("Unbalanced folder markers: ").concat(digits.as_str()).concat(
            " folder(s) never closed",
        );
        return Err(PsdError::InvalidFormat(msg));
    }
    let roots = match frames.pop() {
        Some(f) => f,
        None => Vec::new(),
    };
    Ok(reversed(roots))
}

/// A record of the flat list that a layer tree is written as: the position
/// of a tree record (`None` for a bounding divider made for a group) and
/// the divider kind it is written with.
pub type FlatRecord = (Option<usize>, SectionDividerType);

/// The flat record that a tree token is written as: a group opens with a
/// bounding divider, a group's node is an open folder unless it is marked
/// closed, and a plain layer has no divider.
pub open spec fn token_record(t: TreeToken) -> FlatRecord {
    match t {
        None => (None, SectionDividerType::BoundingSectionDivider),
        Some((i, opened, group)) => (
            Some(i as usize),
            if !group {
                SectionDividerType::Other
            } else if opened == Some(false) {
                SectionDividerType::ClosedFolder
            } else {
                SectionDividerType::OpenFolder
            },
        ),
    }
}

/// The flat records that a forest is written as.
pub open spec fn flat_records(nodes: Seq<LayerNode>) -> Seq<FlatRecord> {
    tree_records(nodes).map_values(|t: TreeToken| token_record(t))
}

/// The flat records that the divider kinds of a document describe: each
/// record at its own position, bounding dividers without one.
pub open spec fn kinds_records(kinds: Seq<SectionDividerType>) -> Seq<FlatRecord> {
    Seq::new(
        kinds.len(),
        |j: int|
            (
                if kinds[j] is BoundingSectionDivider {
                    None
                } else {
                    Some(j as usize)
                },
                kinds[j],
            ),
    )
}

proof fn lemma_kept_records_map(kinds: Seq<SectionDividerType>, i: int, n: int)
    requires
        0 <= i <= n <= kinds.len(),
        n <= usize::MAX + 1,
    ensures
        kept_records(kinds, i, n).map_values(|t: TreeToken| token_record(t)) == kinds_records(
            kinds,
        ).subrange(i, n),
    decreases n - i,
{
    if i < n {
        lemma_kept_records_map(kinds, i + 1, n);
        let head: Seq<TreeToken> = if kinds[i] is BoundingSectionDivider {
            seq![None]
        } else {
            seq![Some(record_label(kinds[i], i))]
        };
        assert(kept_records(kinds, i, n) == head + kept_records(kinds, i + 1, n));
        assert((head + kept_records(kinds, i + 1, n)).map_values(|t: TreeToken| token_record(t))
            =~= head.map_values(|t: TreeToken| token_record(t)) + kept_records(kinds, i + 1, n).map_values(
            |t: TreeToken| token_record(t),
        ));
        assert(kinds_records(kinds).subrange(i, n) =~= seq![kinds_records(kinds)[i]]
            + kinds_records(kinds).subrange(i + 1, n));
    } else {
        assert(kinds_records(kinds).subrange(i, n) =~= Seq::<FlatRecord>::empty());
        assert(kept_records(kinds, i, n).map_values(|t: TreeToken| token_record(t)) =~= Seq::<
            FlatRecord,
        >::empty());
    }
}

/// Writing the tree that `build_layer_hierarchy` builds gives the flat
/// records back: every record at its own position with its own divider
/// kind, and a bounding divider wherever one stood.
pub proof fn law_hierarchy_flattens_back(kinds: Seq<SectionDividerType>, roots: Seq<LayerNode>)
    requires
        kinds.len() <= usize::MAX,
        tree_records(roots) == kept_records(kinds, 0, kinds.len() as int),
    ensures
        flat_records(roots) == kinds_records(kinds),
{
    lemma_kept_records_map(kinds, 0, kinds.len() as int);
    assert(kinds_records(kinds).subrange(0, kinds.len() as int) =~= kinds_records(kinds));
}

/// The flat records of one node.
pub open spec fn node_records(node: LayerNode) -> Seq<FlatRecord> {
    match node.children {
        Some(c) => seq![(None::<usize>, SectionDividerType::BoundingSectionDivider)] + flat_records(c@)
            + seq![
            (
                Some(node.index),
                if node.opened == Some(false) {
                    SectionDividerType::ClosedFolder
                } else {
                    SectionDividerType::OpenFolder
                },
            ),
        ],
        None => seq![(Some(node.index), SectionDividerType::Other)],
    }
}

proof fn lemma_flat_step(prev: Seq<LayerNode>, node: LayerNode)
    ensures
        flat_records(prev.push(node)) == flat_records(prev) + node_records(node),
{
    let all = prev.push(node);
    assert(all.drop_last() =~= prev);
    assert(all[all.len() - 1] == node);
    let members = match node.children {
        Some(c) => seq![None] + tree_records(c@),
        None => Seq::<TreeToken>::empty(),
    };
    let label = seq![Some(node_label(node))];
    assert(tree_records(all) == tree_records(prev) + members + label);
    assert((tree_records(prev) + members + label).map_values(|t: TreeToken| token_record(t))
        =~= flat_records(prev) + node_records(node));
}

/// Flattens a layer tree into the records it is written as, in file order:
/// for each group a bounding divider, its members, then the group's own
/// record, open unless marked closed; a plain layer as itself.
pub fn flatten_layer_tree(nodes: &Vec<LayerNode>) -> (r: Vec<FlatRecord>)
    ensures
        r@ == flat_records(nodes@),
    decreases nodes@,
{
    let mut out: Vec<FlatRecord> = Vec::new();
    assert(flat_records(nodes@.take(0)) =~= Seq::<FlatRecord>::empty()) by {
        assert(nodes@.take(0) =~= Seq::<LayerNode>::empty());
    }
    let mut k: usize = 0;
    while k < nodes.len()
        invariant
            k <= nodes@.len(),
            out@ == flat_records(nodes@.take(k as int)),
        decreases nodes@.len() - k,
    {
        let node = &nodes[k];
        let ghost before = out@;
        proof {
            assert(nodes@.take(k + 1) =~= nodes@.take(k as int).push(*node));
            lemma_flat_step(nodes@.take(k as int), *node);
        }
        match &node.children {
            Some(members) => {
                out.push((None, SectionDividerType::BoundingSectionDivider));
                proof {
                    assert(decreases_to!(nodes@ => nodes@[k as int]));
                }
                let inner = flatten_layer_tree(members);
                let mut j: usize = 0;
                while j < inner.len()
                    invariant
                        j <= inner@.len(),
                        out@ == before + seq![(None::<usize>, SectionDividerType::BoundingSectionDivider)]
                            + inner@.take(j as int),
                    decreases inner@.len() - j,
                {
                    out.push(inner[j]);
                    j += 1;
                    assert(out@ =~= before + seq![(None::<usize>, SectionDividerType::BoundingSectionDivider)]
                        + inner@.take(j as int));
                }
                let kind = match node.opened {
                    Some(false) => SectionDividerType::ClosedFolder,
                    _ => SectionDividerType::OpenFolder,
                };
                out.push((Some(node.index), kind));
                assert(inner@.take(inner@.len() as int) =~= inner@);
                assert(out@ =~= before + node_records(*node));
            },
            None => {
                out.push((Some(node.index), SectionDividerType::Other));
                assert(out@ =~= before + node_records(*node));
            },
        }
        k += 1;
    }
    assert(nodes@.take(nodes@.len() as int) =~= nodes@);
    out
}

/// How a token changes the nesting depth read from the right: a group's
/// node opens it, the group's opening closes it.
spec fn token_weight(t: TreeToken) -> int {
    match t {
        None => -1,
        Some((_, _, group)) => if group {
            1
        } else {
            0
        },
    }
}

spec fn weight(s: Seq<TreeToken>) -> int
    decreases s.len(),
{
    if s.len() == 0 {
        0
    } else {
        weight(s.drop_last()) + token_weight(s.last())
    }
}

proof fn lemma_weight_single(t: TreeToken)
    ensures
        weight(seq![t]) == token_weight(t),
        weight(Seq::<TreeToken>::empty()) == 0,
        weight(seq![t].skip(1)) == 0,
{
    assert(weight(Seq::<TreeToken>::empty()) == 0);
    assert(seq![t].drop_last() =~= Seq::<TreeToken>::empty());
    assert(seq![t].last() == t);
    assert(weight(seq![t]) == weight(seq![t].drop_last()) + token_weight(seq![t].last()));
    assert(seq![t].skip(1) =~= Seq::<TreeToken>::empty());
}

proof fn lemma_weight_add(a: Seq<TreeToken>, b: Seq<TreeToken>)
    ensures
        weight(a + b) == weight(a) + weight(b),
    decreases b.len(),
{
    if b.len() == 0 {
        assert(a + b =~= a);
    } else {
        lemma_weight_add(a, b.drop_last());
        assert((a + b).drop_last() =~= a + b.drop_last());
        assert((a + b).last() == b.last());
    }
}

proof fn lemma_weight_skip(a: Seq<TreeToken>, b: Seq<TreeToken>, j: int)
    requires
        0 <= j <= a.len() + b.len(),
    ensures
        j <= a.len() ==> weight((a + b).skip(j)) == weight(a.skip(j)) + weight(b),
        j > a.len() ==> weight((a + b).skip(j)) == weight(b.skip(j - a.len())),
{
    if j <= a.len() {
        assert((a + b).skip(j) =~= a.skip(j) + b);
        lemma_weight_add(a.skip(j), b);
    } else {
        assert((a + b).skip(j) =~= b.skip(j - a.len()));
    }
}

/// Every token sequence of a forest is balanced: its weight is zero and
/// no suffix weighs less than zero.
proof fn lemma_tree_weights(f: Seq<LayerNode>)
    ensures
        weight(tree_records(f)) == 0,
        forall|j: int| 0 <= j <= tree_records(f).len() ==> weight(#[trigger] tree_records(f).skip(j)) >= 0,
    decreases f,
{
    if f.len() == 0 {
        assert forall|j: int| 0 <= j <= tree_records(f).len() implies weight(
            #[trigger] tree_records(f).skip(j),
        ) >= 0 by {
            assert(tree_records(f).skip(j) =~= Seq::<TreeToken>::empty());
        }
    } else {
        let last = f[f.len() - 1];
        let rest = f.drop_last();
        assert(decreases_to!(f => rest));
        lemma_tree_weights(rest);
        let label: Seq<TreeToken> = seq![Some(node_label(last))];
        let members: Seq<TreeToken> = match last.children {
            Some(c) => {
                assert(decreases_to!(f => f[f.len() - 1]));
                lemma_tree_weights(c@);
                lemma_weight_add(seq![None], tree_records(c@));
                lemma_weight_single(None);
                seq![None] + tree_records(c@)
            },
            None => Seq::empty(),
        };
        lemma_weight_single(Some(node_label(last)));
        let tail = members + label;
        lemma_weight_add(members, label);
        assert(weight(tail) == 0);
        assert(tree_records(f) == tree_records(rest) + members + label);
        assert(tree_records(f) =~= tree_records(rest) + tail);
        lemma_weight_add(tree_records(rest), tail);
        assert forall|j: int| 0 <= j <= tree_records(f).len() implies weight(
            #[trigger] tree_records(f).skip(j),
        ) >= 0 by {
            lemma_weight_skip(tree_records(rest), tail, j);
            if j > tree_records(rest).len() {
                let q = j - tree_records(rest).len();
                lemma_weight_skip(members, label, q);
                if q > members.len() {
                    let q2 = q - members.len();
                    assert(q2 == 1);
                } else {
                    match last.children {
                        Some(c) => {
                            lemma_weight_skip(seq![None], tree_records(c@), q);
                        },
                        None => {
                            assert(members.skip(q) =~= Seq::<TreeToken>::empty());
                        },
                    }
                }
            }
        }
    }
}

/// A split of a balanced word at an opening whose group ends the word:
/// reading from the right, the inner part never weighs less than zero, so
/// the part after the opening weighs at least one wherever it starts.
proof fn lemma_opening_suffix(x: Seq<TreeToken>, y: Seq<TreeToken>, l: TreeToken, q: int)
    requires
        weight(y) == 0,
        forall|j: int| 0 <= j <= y.len() ==> weight(#[trigger] y.skip(j)) >= 0,
        token_weight(l) == 1,
        1 <= q <= y.len(),
    ensures
        weight((seq![None] + y + seq![l]).skip(q)) >= 1,
{
    lemma_weight_single(None);
    lemma_weight_single(l);
    lemma_weight_skip(seq![None] + y, seq![l], q);
    lemma_weight_skip(seq![None], y, q);
    if q > 1 {
        assert(weight(y.skip(q - 1)) >= 0);
    }
}

proof fn lemma_opening_weight(x: Seq<TreeToken>, y: Seq<TreeToken>, l: TreeToken)
    requires
        weight(y) == 0,
        token_weight(l) == 1,
    ensures
        weight((x + (seq![None] + y + seq![l])).skip(x.len() as int)) == 0,
{
    lemma_weight_single(None);
    lemma_weight_single(l);
    lemma_weight_skip(x, seq![None] + y + seq![l], x.len() as int);
    assert(x.skip(x.len() as int) =~= Seq::<TreeToken>::empty());
    lemma_weight_add(seq![None] + y, seq![l]);
    lemma_weight_add(seq![None], y);
}

proof fn lemma_split_unique(
    x1: Seq<TreeToken>,
    y1: Seq<TreeToken>,
    x2: Seq<TreeToken>,
    y2: Seq<TreeToken>,
    l: TreeToken,
)
    requires
        x1 + seq![None] + y1 + seq![l] == x2 + seq![None] + y2 + seq![l],
        weight(y1) == 0,
        weight(y2) == 0,
        forall|j: int| 0 <= j <= y1.len() ==> weight(#[trigger] y1.skip(j)) >= 0,
        forall|j: int| 0 <= j <= y2.len() ==> weight(#[trigger] y2.skip(j)) >= 0,
        token_weight(l) == 1,
    ensures
        x1 == x2,
        y1 == y2,
{
    let t = x1 + seq![None] + y1 + seq![l];
    let t1 = x1 + (seq![None] + y1 + seq![l]);
    let t2 = x2 + (seq![None] + y2 + seq![l]);
    assert(t =~= t1);
    assert(t =~= t2);
    if x1.len() < x2.len() {
        let p = x2.len() as int;
        lemma_opening_weight(x2, y2, l);
        lemma_weight_skip(x1, seq![None] + y1 + seq![l], p);
        lemma_opening_suffix(x1, y1, l, p - x1.len());
        assert(false);
    } else if x2.len() < x1.len() {
        let p = x1.len() as int;
        lemma_opening_weight(x1, y1, l);
        lemma_weight_skip(x2, seq![None] + y2 + seq![l], p);
        lemma_opening_suffix(x2, y2, l, p - x2.len());
        assert(false);
    } else {
        assert(t.subrange(0, x1.len() as int) =~= x1);
        assert(t2.subrange(0, x2.len() as int) =~= x2);
        assert(t.subrange(x1.len() as int + 1, t.len() - 1) =~= y1);
        assert(t2.subrange(x2.len() as int + 1, t.len() - 1) =~= y2);
    }
}

/// The tokens of a forest fix it: two forests with the same tokens have
/// roots with the same positions, open states and group marks, and every
/// group's members again have the same tokens.  So the tokens that
/// `build_layer_hierarchy` promises fix the whole tree.
pub proof fn law_tokens_fix_forest(a: Seq<LayerNode>, b: Seq<LayerNode>)
    requires
        tree_records(a) == tree_records(b),
    ensures
        a.len() == b.len(),
        forall|i: int|
            0 <= i < a.len() ==> node_label(#[trigger] a[i]) == node_label(b[i]) && (a[i].children
                matches Some(ca) ==> (b[i].children matches Some(cb) && tree_records(ca@)
                == tree_records(cb@))),
    decreases a.len(),
{
    if a.len() == 0 {
        if b.len() > 0 {
            assert(tree_records(b).len() > 0);
        }
    } else if b.len() == 0 {
        assert(tree_records(a).len() > 0);
    } else {
        let la = a[a.len() - 1];
        let lb = b[b.len() - 1];
        let ma: Seq<TreeToken> = match la.children {
            Some(c) => seq![None] + tree_records(c@),
            None => Seq::empty(),
        };
        let mb: Seq<TreeToken> = match lb.children {
            Some(c) => seq![None] + tree_records(c@),
            None => Seq::empty(),
        };
        let t = tree_records(a);
        assert(t == tree_records(a.drop_last()) + ma + seq![Some(node_label(la))]);
        assert(tree_records(b) == tree_records(b.drop_last()) + mb + seq![Some(node_label(lb))]);
        assert(t[t.len() - 1] == Some(node_label(la)));
        assert(tree_records(b)[tree_records(b).len() - 1] == Some(node_label(lb)));
        assert(node_label(la) == node_label(lb));
        match la.children {
            Some(ca) => {
                let cb = lb.children->0;
                lemma_tree_weights(ca@);
                lemma_tree_weights(cb@);
                assert(t =~= tree_records(a.drop_last()) + seq![None] + tree_records(ca@) + seq![Some(node_label(la))]);
                assert(tree_records(b) =~= tree_records(b.drop_last()) + seq![None] + tree_records(cb@) + seq![Some(node_label(lb))]);
                lemma_split_unique(
                    tree_records(a.drop_last()),
                    tree_records(ca@),
                    tree_records(b.drop_last()),
                    tree_records(cb@),
                    Some(node_label(la)),
                );
            },
            None => {
                assert(t =~= tree_records(a.drop_last()) + seq![Some(node_label(la))]);
                assert(tree_records(b) =~= tree_records(b.drop_last()) + seq![Some(node_label(lb))]);
                assert(tree_records(a.drop_last()) =~= t.drop_last());
                assert(tree_records(b.drop_last()) =~= tree_records(b).drop_last());
            },
        }
        law_tokens_fix_forest(a.drop_last(), b.drop_last());
        assert forall|i: int| 0 <= i < a.len() implies node_label(#[trigger] a[i]) == node_label(b[i])
            && (a[i].children matches Some(ca) ==> (b[i].children matches Some(cb) && tree_records(
            ca@,
        ) == tree_records(cb@))) by {
            if i < a.len() - 1 {
                assert(a.drop_last()[i] == a[i]);
                assert(b.drop_last()[i] == b[i]);
            }
        }
    }
}

} // verus!
