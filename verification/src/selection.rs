//! The selection model: a hierarchical directory/file tree laid out in
//! preorder over a flat set of discovered files, the expansion of
//! checked directories against explicit deselections, and the planning
//! of the cleanup that removes what was not kept.
use vstd::prelude::*;

use crate::text::{
    count_char, spec_contains_str, split_slash, split_slash_spec, str_eq, str_le, views,
};

verus! {

/// A preprocessed file available for selection: its full path and its
/// display name, the path relative to the selection root.
#[derive(Debug, Clone)]
pub struct PreprocessedFileInfo {
    pub path: String,
    pub display_name: String,
}

/// An item of the selection tree: a file, or a directory whose
/// `child_indices` point at its immediate children later in the list.
#[derive(Debug, Clone)]
pub enum SelectableItem {
    File { info: PreprocessedFileInfo, depth: usize },
    Directory {
        components: Vec<String>,
        display_name: String,
        depth: usize,
        child_indices: Vec<usize>,
    },
}

/// The path components an item stands for, relative to the root.
pub open spec fn comps_of(it: SelectableItem) -> Seq<Seq<char>> {
    match it {
        SelectableItem::File { info, .. } => split_slash_spec(info.display_name@),
        SelectableItem::Directory { components, .. } => views(components@),
    }
}

pub open spec fn is_file_item(it: SelectableItem) -> bool {
    it is File
}

pub open spec fn depth_of(it: SelectableItem) -> int {
    match it {
        SelectableItem::File { depth, .. } => depth as int,
        SelectableItem::Directory { depth, .. } => depth as int,
    }
}

/// Preorder key order on items. Directories sort before files of the
/// same level, a parent before everything below it, and names
/// lexicographically; so sorting by this key lays out the forest in
/// preorder with children ordered as the interactive list shows them.
pub open spec fn key_le(a: Seq<Seq<char>>, af: bool, b: Seq<Seq<char>>, bf: bool) -> bool
    decreases a.len(),
{
    if a.len() == 0 {
        true
    } else if b.len() == 0 {
        false
    } else {
        let ta = a.len() == 1 && af;
        let tb = b.len() == 1 && bf;
        if !ta && tb {
            true
        } else if ta && !tb {
            false
        } else if !str_le(b.first(), a.first()) {
            true
        } else if !str_le(a.first(), b.first()) {
            false
        } else {
            key_le(a.drop_first(), af, b.drop_first(), bf)
        }
    }
}

pub open spec fn item_key_le(a: SelectableItem, b: SelectableItem) -> bool {
    key_le(comps_of(a), is_file_item(a), comps_of(b), is_file_item(b))
}

pub proof fn lemma_key_le_refl(a: Seq<Seq<char>>, af: bool)
    ensures
        key_le(a, af, a, af),
    decreases a.len(),
{
    if a.len() > 0 {
        crate::text::lemma_str_le_refl(a.first());
        lemma_key_le_refl(a.drop_first(), af);
    }
}

pub proof fn lemma_key_le_antisym(a: Seq<Seq<char>>, af: bool, b: Seq<Seq<char>>, bf: bool)
    requires
        key_le(a, af, b, bf),
        key_le(b, bf, a, af),
    ensures
        a == b,
        a.len() > 0 ==> af == bf,
    decreases a.len(),
{
    if a.len() == 0 {
        assert(b.len() == 0);
        assert(a =~= b);
    } else {
        assert(b.len() > 0);
        let ta = a.len() == 1 && af;
        let tb = b.len() == 1 && bf;
        assert(ta == tb);
        crate::text::lemma_str_le_connected(a.first(), b.first());
        crate::text::lemma_str_le_antisym(a.first(), b.first());
        lemma_key_le_antisym(a.drop_first(), af, b.drop_first(), bf);
        assert(a =~= seq![a.first()] + a.drop_first());
        assert(b =~= seq![b.first()] + b.drop_first());
        assert(a =~= b);
        if a.len() == 1 {
            assert(af == bf);
        }
    }
}

pub proof fn lemma_key_le_trans(
    a: Seq<Seq<char>>,
    af: bool,
    b: Seq<Seq<char>>,
    bf: bool,
    c: Seq<Seq<char>>,
    cf: bool,
)
    requires
        key_le(a, af, b, bf),
        key_le(b, bf, c, cf),
    ensures
        key_le(a, af, c, cf),
    decreases a.len(),
{
    if a.len() > 0 && b.len() > 0 && c.len() > 0 {
        let a0 = a.first();
        let b0 = b.first();
        let c0 = c.first();
        crate::text::lemma_str_le_refl(a0);
        crate::text::lemma_str_le_refl(b0);
        crate::text::lemma_str_le_refl(c0);
        crate::text::lemma_str_le_connected(a0, b0);
        crate::text::lemma_str_le_connected(b0, c0);
        crate::text::lemma_str_le_connected(a0, c0);
        if str_le(a0, b0) && str_le(b0, a0) {
            crate::text::lemma_str_le_antisym(a0, b0);
        }
        if str_le(b0, c0) && str_le(c0, b0) {
            crate::text::lemma_str_le_antisym(b0, c0);
        }
        if str_le(a0, c0) && str_le(c0, a0) {
            crate::text::lemma_str_le_antisym(a0, c0);
        }
        if str_le(c0, a0) && str_le(a0, b0) {
            crate::text::lemma_str_le_trans(c0, a0, b0);
        }
        if str_le(b0, c0) && str_le(c0, a0) {
            crate::text::lemma_str_le_trans(b0, c0, a0);
        }
        if str_le(a0, b0) && str_le(b0, c0) {
            crate::text::lemma_str_le_trans(a0, b0, c0);
        }
        let ta = a.len() == 1 && af;
        let tb = b.len() == 1 && bf;
        let tc = c.len() == 1 && cf;
        if a0 == b0 && b0 == c0 && ta == tb && tb == tc {
            lemma_key_le_trans(a.drop_first(), af, b.drop_first(), bf, c.drop_first(), cf);
        }
    }
}

pub proof fn lemma_key_le_connected(a: Seq<Seq<char>>, af: bool, b: Seq<Seq<char>>, bf: bool)
    ensures
        key_le(a, af, b, bf) || key_le(b, bf, a, af),
    decreases a.len(),
{
    if a.len() > 0 && b.len() > 0 {
        let a0 = a.first();
        let b0 = b.first();
        crate::text::lemma_str_le_connected(a0, b0);
        if str_le(a0, b0) && str_le(b0, a0) {
            crate::text::lemma_str_le_antisym(a0, b0);
        }
        lemma_key_le_connected(a.drop_first(), af, b.drop_first(), bf);
    }
}

/// Decides `key_le` on component vectors.
fn key_le_exec(ac: &Vec<String>, af: bool, bc: &Vec<String>, bf: bool) -> (r: bool)
    ensures
        r == key_le(views(ac@), af, views(bc@), bf),
{
    let ghost va = views(ac@);
    let ghost vb = views(bc@);
    let alen = ac.len();
    let blen = bc.len();
    let mut i: usize = 0;
    proof {
        assert(va.skip(0) =~= va);
        assert(vb.skip(0) =~= vb);
    }
    loop
        invariant
            i <= alen,
            i <= blen,
            alen == va.len(),
            blen == vb.len(),
            va == views(ac@),
            vb == views(bc@),
            key_le(va, af, vb, bf) == key_le(va.skip(i as int), af, vb.skip(i as int), bf),
        decreases alen - i,
    {
        proof {
            if i < alen {
                assert(va.skip(i as int).first() == ac@[i as int]@);
                assert(va.skip(i as int).drop_first() =~= va.skip(i + 1));
            }
            if i < blen {
                assert(vb.skip(i as int).first() == bc@[i as int]@);
                assert(vb.skip(i as int).drop_first() =~= vb.skip(i + 1));
            }
        }
        if i == alen {
            assert(va.skip(i as int).len() == 0);
            return true;
        }
        if i == blen {
            assert(vb.skip(i as int).len() == 0);
            return false;
        }
        let ta = i + 1 == alen && af;
        let tb = i + 1 == blen && bf;
        proof {
            assert(ta == (va.skip(i as int).len() == 1 && af));
            assert(tb == (vb.skip(i as int).len() == 1 && bf));
        }
        if !ta && tb {
            return true;
        }
        if ta && !tb {
            return false;
        }
        let le_ba = crate::text::str_le_exec(bc[i].as_str(), ac[i].as_str());
        let le_ab = crate::text::str_le_exec(ac[i].as_str(), bc[i].as_str());
        if !le_ba {
            return true;
        }
        if !le_ab {
            return false;
        }
        proof {
            crate::text::lemma_str_le_antisym(ac@[i as int]@, bc@[i as int]@);
            assert(va.skip(i as int).first() == vb.skip(i as int).first());
        }
        i = i + 1;
    }
}

/// An intermediate record while the tree is laid out: the path
/// components, and the index of the file it stands for (`None` for a
/// directory).
struct ItemRec {
    comps: Vec<String>,
    file: Option<usize>,
}

/// The sort key of a record: its components and whether it is a file.
spec fn rec_key(r: ItemRec) -> (Seq<Seq<char>>, bool) {
    (views(r.comps@), r.file is Some)
}

/// Copies a component vector, value for value.
fn clone_comps(v: &Vec<String>) -> (r: Vec<String>)
    ensures
        r@ == v@,
{
    let mut out: Vec<String> = Vec::new();
    let mut i: usize = 0;
    while i < v.len()
        invariant
            i <= v@.len(),
            out@ == v@.subrange(0, i as int),
        decreases v@.len() - i,
    {
        out.push(v[i].clone());
        proof {
            assert(out@ =~= v@.subrange(0, i + 1));
        }
        i = i + 1;
    }
    proof {
        assert(v@.subrange(0, i as int) =~= v@);
    }
    out
}

/// Whether `c` is exactly one component below `p`.
pub open spec fn comps_child(c: Seq<Seq<char>>, p: Seq<Seq<char>>) -> bool {
    c.len() == p.len() + 1 && c.take(p.len() as int) == p
}

/// Decides whether the components `c` name an immediate child of `p`.
fn is_child_comps(c: &Vec<String>, p: &Vec<String>) -> (r: bool)
    ensures
        r == comps_child(views(c@), views(p@)),
{
    if c.len() == 0 || c.len() - 1 != p.len() {
        return false;
    }
    let mut i: usize = 0;
    while i < p.len()
        invariant
            i <= p@.len(),
            c@.len() == p@.len() + 1,
            forall|j: int| 0 <= j < i ==> (#[trigger] c@[j]@) == p@[j]@,
        decreases p@.len() - i,
    {
        if !str_eq(c[i].as_str(), p[i].as_str()) {
            proof {
                assert(!comps_child(views(c@), views(p@))) by {
                    if comps_child(views(c@), views(p@)) {
                        assert(views(c@).take(views(p@).len() as int)[i as int] == views(
                            p@,
                        )[i as int]);
                    }
                }
            }
            return false;
        }
        i = i + 1;
    }
    proof {
        assert(views(c@).take(views(p@).len() as int) =~= views(p@));
    }
    true
}

/// Decides equality of two component vectors' contents.
fn comps_eq(a: &Vec<String>, b: &Vec<String>) -> (r: bool)
    ensures
        r == (views(a@) == views(b@)),
{
    if a.len() != b.len() {
        proof {
            assert(views(a@).len() == a@.len());
            assert(views(b@).len() == b@.len());
        }
        return false;
    }
    let mut i: usize = 0;
    while i < a.len()
        invariant
            i <= a@.len(),
            a@.len() == b@.len(),
            forall|j: int| 0 <= j < i ==> (#[trigger] a@[j]@) == b@[j]@,
        decreases a@.len() - i,
    {
        if !str_eq(a[i].as_str(), b[i].as_str()) {
            proof {
                assert(views(a@)[i as int] != views(b@)[i as int]);
            }
            return false;
        }
        i = i + 1;
    }
    proof {
        assert(views(a@) =~= views(b@));
    }
    true
}

/// Moving the head of `rest` into `out` keeps the combined multiset.
proof fn lemma_rec_move_one(
    pre_out: Seq<ItemRec>,
    pre_rest: Seq<ItemRec>,
    out2: Seq<ItemRec>,
    rest2: Seq<ItemRec>,
    pos: int,
    x: ItemRec,
)
    requires
        0 <= pos <= pre_out.len(),
        pre_rest.len() > 0,
        pre_rest[0] == x,
        out2 == pre_out.insert(pos, x),
        rest2 == pre_rest.remove(0),
    ensures
        out2.to_multiset().add(rest2.to_multiset()) == pre_out.to_multiset().add(
            pre_rest.to_multiset(),
        ),
{
    broadcast use vstd::multiset::group_multiset_axioms;

    vstd::seq_lib::to_multiset_insert(pre_out, pos, x);
    vstd::seq_lib::to_multiset_remove(pre_rest, 0);
    assert(pre_rest.contains(x));
    vstd::seq_lib::to_multiset_contains(pre_rest, x);
    assert(pre_rest.to_multiset().count(x) > 0);
    assert(out2.to_multiset().add(rest2.to_multiset()) =~= pre_out.to_multiset().add(
        pre_rest.to_multiset(),
    ));
}

/// Sorts records by preorder key, keeping the multiset of records.
fn sort_recs(v: Vec<ItemRec>) -> (r: Vec<ItemRec>)
    ensures
        r@.to_multiset() == v@.to_multiset(),
        forall|a: int, b: int|
            0 <= a < b < r@.len() ==> key_le(
                views((#[trigger] r@[a]).comps@),
                r@[a].file is Some,
                views((#[trigger] r@[b]).comps@),
                r@[b].file is Some,
            ),
{
    broadcast use vstd::seq_lib::group_to_multiset_ensures;
    broadcast use vstd::multiset::group_multiset_axioms;

    let ghost orig = v@;
    let mut rest = v;
    let mut out: Vec<ItemRec> = Vec::new();
    proof {
        assert(out@.to_multiset().add(rest@.to_multiset()) =~= orig.to_multiset());
    }
    while rest.len() > 0
        invariant
            orig.to_multiset() == out@.to_multiset().add(rest@.to_multiset()),
            forall|a: int, b: int|
                0 <= a < b < out@.len() ==> key_le(
                    views((#[trigger] out@[a]).comps@),
                    out@[a].file is Some,
                    views((#[trigger] out@[b]).comps@),
                    out@[b].file is Some,
                ),
        decreases rest@.len(),
    {
        let ghost pre_rest = rest@;
        let x = rest.remove(0);
        let xf = x.file.is_some();
        let mut pos: usize = 0;
        while pos < out.len()
            invariant
                pos <= out@.len(),
                xf == (x.file is Some),
                forall|k: int|
                    0 <= k < pos ==> key_le(
                        views((#[trigger] out@[k]).comps@),
                        out@[k].file is Some,
                        views(x.comps@),
                        x.file is Some,
                    ),
            ensures
                pos <= out@.len(),
                xf == (x.file is Some),
                forall|k: int|
                    0 <= k < pos ==> key_le(
                        views((#[trigger] out@[k]).comps@),
                        out@[k].file is Some,
                        views(x.comps@),
                        x.file is Some,
                    ),
                pos < out@.len() ==> key_le(
                    views(x.comps@),
                    x.file is Some,
                    views(out@[pos as int].comps@),
                    out@[pos as int].file is Some,
                ),
            decreases out@.len() - pos,
        {
            let of = out[pos].file.is_some();
            if !key_le_exec(&out[pos].comps, of, &x.comps, xf) {
                proof {
                    lemma_key_le_connected(
                        views(out@[pos as int].comps@),
                        out@[pos as int].file is Some,
                        views(x.comps@),
                        x.file is Some,
                    );
                }
                break;
            }
            pos = pos + 1;
        }
        proof {
            assert forall|k: int| (pos as int) <= k < out@.len() implies key_le(
                views(x.comps@),
                x.file is Some,
                views((#[trigger] out@[k]).comps@),
                out@[k].file is Some,
            ) by {
                if k > pos {
                    lemma_key_le_trans(
                        views(x.comps@),
                        x.file is Some,
                        views(out@[pos as int].comps@),
                        out@[pos as int].file is Some,
                        views(out@[k].comps@),
                        out@[k].file is Some,
                    );
                }
            }
        }
        let ghost pre_out = out@;
        let ghost xv = x;
        out.insert(pos, x);
        proof {
            assert forall|a: int, b: int| 0 <= a < b < out@.len() implies key_le(
                views((#[trigger] out@[a]).comps@),
                out@[a].file is Some,
                views((#[trigger] out@[b]).comps@),
                out@[b].file is Some,
            ) by {
                pre_out.insert_ensures(pos as int, xv);
            }
            assert(out@ == pre_out.insert(pos as int, xv));
            assert(rest@ == pre_rest.remove(0));
            lemma_rec_move_one(pre_out, pre_rest, out@, rest@, pos as int, xv);
        }
    }
    out
}

/// Collects, in ascending order, the indices of the immediate children
/// of record `i`: records exactly one component below it.
fn scan_children(recs: &Vec<ItemRec>, i: usize) -> (kids: Vec<usize>)
    requires
        i < recs@.len(),
    ensures
        forall|u: int, v2: int| 0 <= u < v2 < kids@.len() ==> kids@[u] < kids@[v2],
        forall|u: int| 0 <= u < kids@.len() ==> (#[trigger] kids@[u]) < recs@.len(),
        forall|j: int|
            0 <= j < recs@.len() ==> (kids@.contains(j as usize) <==> comps_child(
                views((#[trigger] recs@[j]).comps@),
                views(recs@[i as int].comps@),
            )),
{
    let mut kids: Vec<usize> = Vec::new();
    let mut j: usize = 0;
    while j < recs.len()
        invariant
            j <= recs@.len(),
            i < recs@.len(),
            forall|u: int, v2: int| 0 <= u < v2 < kids@.len() ==> kids@[u] < kids@[v2],
            forall|u: int|
                0 <= u < kids@.len() ==> (#[trigger] kids@[u]) < j && comps_child(
                    views(recs@[kids@[u] as int].comps@),
                    views(recs@[i as int].comps@),
                ),
            forall|j2: int|
                0 <= j2 < j && comps_child(
                    views((#[trigger] recs@[j2]).comps@),
                    views(recs@[i as int].comps@),
                ) ==> kids@.contains(j2 as usize),
        decreases recs@.len() - j,
    {
        let ghost pre = kids@;
        if is_child_comps(&recs[j].comps, &recs[i].comps) {
            kids.push(j);
            proof {
                assert(kids@[kids@.len() - 1] == j);
                assert forall|j2: int|
                    0 <= j2 < j + 1 && comps_child(
                        views((#[trigger] recs@[j2]).comps@),
                        views(recs@[i as int].comps@),
                    ) implies kids@.contains(j2 as usize) by {
                    if j2 < j {
                        let u = choose|u: int| 0 <= u < pre.len() && pre[u] == j2 as usize;
                        assert(kids@[u] == j2 as usize);
                    } else {
                        assert(kids@[kids@.len() - 1] == j2 as usize);
                    }
                }
            }
        } else {
            proof {
                assert forall|j2: int|
                    0 <= j2 < j + 1 && comps_child(
                        views((#[trigger] recs@[j2]).comps@),
                        views(recs@[i as int].comps@),
                    ) implies kids@.contains(j2 as usize) by {
                    assert(j2 < j);
                }
            }
        }
        j = j + 1;
    }
    proof {
        assert forall|j2: int|
            0 <= j2 < recs@.len() implies (kids@.contains(j2 as usize) <==> comps_child(
            views((#[trigger] recs@[j2]).comps@),
            views(recs@[i as int].comps@),
        )) by {
            if kids@.contains(j2 as usize) {
                let u = choose|u: int| 0 <= u < kids@.len() && kids@[u] == j2 as usize;
                assert(comps_child(
                    views(recs@[kids@[u] as int].comps@),
                    views(recs@[i as int].comps@),
                ));
            }
        }
    }
    kids
}

/// Decides whether a component vector with these contents is already
/// collected.
fn dir_present(dirs: &Vec<Vec<String>>, prefix: &Vec<String>) -> (r: bool)
    ensures
        r == exists|m: int| 0 <= m < dirs@.len() && views((#[trigger] dirs@[m])@) == views(
            prefix@,
        ),
{
    let mut m: usize = 0;
    while m < dirs.len()
        invariant
            m <= dirs@.len(),
            forall|m2: int| 0 <= m2 < m ==> views((#[trigger] dirs@[m2])@) != views(prefix@),
        decreases dirs@.len() - m,
    {
        if comps_eq(&dirs[m], prefix) {
            return true;
        }
        m = m + 1;
    }
    false
}

/// The pair that identifies an item's position in the preorder: its
/// components and whether it is a file.
pub open spec fn item_key(it: SelectableItem) -> (Seq<Seq<char>>, bool) {
    (comps_of(it), is_file_item(it))
}

/// Whether a tree item carries exactly this input file.
pub open spec fn file_matches(it: SelectableItem, inf: PreprocessedFileInfo) -> bool {
    &&& it matches SelectableItem::File { info, depth } && info.path@ == inf.path@
        && info.display_name@ == inf.display_name@ && depth + 1 == split_slash_spec(
        inf.display_name@,
    ).len()
}

/// Whether `c` is a proper, non-empty prefix of some input file's
/// component path: the directories the tree must show.
pub open spec fn is_dir_prefix_of(files: Seq<PreprocessedFileInfo>, c: Seq<Seq<char>>) -> bool {
    exists|k: int, p: int|
        {
            &&& 0 <= k < files.len()
            &&& 0 < p < split_slash_spec(files[k].display_name@).len()
            &&& c == #[trigger] (split_slash_spec(files[k].display_name@).take(p))
        }
}

/// Whether one of the collected component vectors has contents `c`.
pub open spec fn covers(ds: Seq<Vec<String>>, c: Seq<Seq<char>>) -> bool {
    exists|m: int| 0 <= m < ds.len() && views((#[trigger] ds[m])@) == c
}

pub open spec fn dir_fields_ok(it: SelectableItem) -> bool {
    it matches SelectableItem::Directory { components, display_name, depth, .. } ==> {
        &&& components@.len() >= 1
        &&& display_name@ == components@.last()@
        &&& depth + 1 == components@.len()
    }
}

/// Whether item `j` is an immediate child of item `i`.
pub open spec fn is_child(items: Seq<SelectableItem>, i: int, j: int) -> bool {
    comps_child(comps_of(items[j]), comps_of(items[i]))
}

pub open spec fn children_ok(items: Seq<SelectableItem>, i: int) -> bool {
    items[i] matches SelectableItem::Directory { child_indices, .. } ==> {
        &&& forall|u: int, v: int|
            0 <= u < v < child_indices@.len() ==> child_indices@[u] < child_indices@[v]
        &&& forall|u: int| 0 <= u < child_indices@.len() ==> (#[trigger] child_indices@[u]) < items.len()
        &&& forall|j: int|
            0 <= j < items.len() ==> (child_indices@.contains(j as usize) <==> is_child(
                items,
                i,
                j,
            ))
    }
}

/// Whether some item carries exactly this input file.
pub open spec fn has_file_item(items: Seq<SelectableItem>, inf: PreprocessedFileInfo) -> bool {
    exists|i: int| 0 <= i < items.len() && file_matches(#[trigger] items[i], inf)
}

/// Whether some directory item has exactly these components.
pub open spec fn has_dir_item(items: Seq<SelectableItem>, c: Seq<Seq<char>>) -> bool {
    exists|i: int|
        0 <= i < items.len() && !is_file_item(#[trigger] items[i]) && comps_of(items[i]) == c
}

/// What hierarchical-tree construction guarantees. The items stand in
/// strictly ascending preorder-key order (directories of a level first,
/// then its files, parents before descendants, names lexicographic);
/// the file items are exactly the input files; the directory items are
/// exactly the proper prefixes of the input paths, once each; depths
/// count components below the root; and each directory's child indices
/// are exactly its immediate children, ascending.
pub open spec fn tree_post(files: Seq<PreprocessedFileInfo>, items: Seq<SelectableItem>) -> bool {
    &&& forall|i: int, j: int|
        0 <= i < j < items.len() ==> item_key_le(#[trigger] items[i], #[trigger] items[j])
            && item_key(items[i]) != item_key(items[j])
    &&& forall|k: int| 0 <= k < files.len() ==> has_file_item(items, #[trigger] files[k])
    &&& forall|i: int|
        0 <= i < items.len() ==> (is_file_item(#[trigger] items[i]) ==> exists|k: int|
            0 <= k < files.len() && file_matches(items[i], #[trigger] files[k]))
    &&& forall|i: int| 0 <= i < items.len() ==> dir_fields_ok(#[trigger] items[i])
    &&& forall|i: int|
        0 <= i < items.len() ==> (!is_file_item(#[trigger] items[i]) ==> is_dir_prefix_of(
            files,
            comps_of(items[i]),
        ))
    &&& forall|k: int, p: int|
        0 <= k < files.len() && 0 < p < split_slash_spec(files[k].display_name@).len()
            ==> has_dir_item(
            items,
            #[trigger] (split_slash_spec(files[k].display_name@).take(p)),
        )
    &&& forall|i: int| 0 <= i < items.len() ==> #[trigger] children_ok(items, i)
}

/// Builds the selection tree over a flat set of discovered files: every
/// intermediate directory is derived from the file paths, each item's
/// depth is its distance from the root, and the list is laid out in
/// preorder with directories and files sorted at every level.
pub fn build_hierarchical_items(files: &Vec<PreprocessedFileInfo>) -> (items: Vec<SelectableItem>)
    requires
        forall|k1: int, k2: int|
            0 <= k1 < k2 < files@.len() ==> (#[trigger] files@[k1].display_name@) != (
            #[trigger] files@[k2].display_name@),
    ensures
        tree_post(files@, items@),
{
    broadcast use vstd::seq_lib::group_to_multiset_ensures;

    // Collect every proper prefix of every file path, once each.
    let mut dirs: Vec<Vec<String>> = Vec::new();
    let mut k: usize = 0;
    while k < files.len()
        invariant
            k <= files@.len(),
            forall|m1: int, m2: int|
                0 <= m1 < m2 < dirs@.len() ==> views((#[trigger] dirs@[m1])@) != views(
                    (#[trigger] dirs@[m2])@,
                ),
            forall|m: int|
                0 <= m < dirs@.len() ==> is_dir_prefix_of(files@, views((#[trigger] dirs@[m])@)),
            forall|k2: int, p: int|
                0 <= k2 < k && 0 < p < split_slash_spec(files@[k2].display_name@).len()
                    ==> covers(
                    dirs@,
                    #[trigger] (split_slash_spec(files@[k2].display_name@).take(p)),
                ),
        decreases files@.len() - k,
    {
        let comps = split_slash(files[k].display_name.as_str());
        let ghost sk = split_slash_spec(files@[k as int].display_name@);
        proof {
            assert(views(comps@) =~= sk);
            crate::text::lemma_split_char_len(files@[k as int].display_name@, '/');
        }
        let mut prefix: Vec<String> = Vec::new();
        let mut p: usize = 1;
        let clen = comps.len();
        prefix.push(comps[0].clone());
        proof {
            assert(views(prefix@) =~= sk.take(1));
        }
        while p < clen
            invariant
                1 <= p <= clen,
                clen == comps@.len(),
                views(comps@) == sk,
                sk == split_slash_spec(files@[k as int].display_name@),
                k < files@.len(),
                views(prefix@) == sk.take(p as int),
                forall|m1: int, m2: int|
                    0 <= m1 < m2 < dirs@.len() ==> views((#[trigger] dirs@[m1])@) != views(
                        (#[trigger] dirs@[m2])@,
                    ),
                forall|m: int|
                    0 <= m < dirs@.len() ==> is_dir_prefix_of(
                        files@,
                        views((#[trigger] dirs@[m])@),
                    ),
                forall|k2: int, p2: int|
                    0 <= k2 < k && 0 < p2 < split_slash_spec(files@[k2].display_name@).len()
                        ==> covers(
                        dirs@,
                        #[trigger] (split_slash_spec(files@[k2].display_name@).take(p2)),
                    ),
                forall|p2: int| #![trigger sk.take(p2)] 0 < p2 < p ==> covers(dirs@, sk.take(p2)),
            decreases clen - p,
        {
            if !dir_present(&dirs, &prefix) {
                let d = clone_comps(&prefix);
                let ghost pre_dirs = dirs@;
                dirs.push(d);
                proof {
                    assert(dirs@ == pre_dirs.push(d));
                    assert forall|m1: int| 0 <= m1 < pre_dirs.len() implies dirs@[m1]
                        == pre_dirs[m1] by {}
                    assert(views(dirs@[dirs@.len() - 1]@) == sk.take(p as int));
                    assert(is_dir_prefix_of(files@, sk.take(p as int))) by {
                        assert(0 <= k < files@.len() && 0 < p < split_slash_spec(
                            files@[k as int].display_name@,
                        ).len());
                        assert(sk.take(p as int) == split_slash_spec(
                            files@[k as int].display_name@,
                        ).take(p as int));
                    }
                    assert forall|c: Seq<Seq<char>>| covers(pre_dirs, c) implies covers(
                        dirs@,
                        c,
                    ) by {
                        let m = choose|m: int|
                            0 <= m < pre_dirs.len() && views((#[trigger] pre_dirs[m])@) == c;
                        assert(views((dirs@[m])@) == c);
                    }
                    assert(covers(dirs@, sk.take(p as int))) by {
                        assert(views((dirs@[dirs@.len() - 1])@) == sk.take(p as int));
                    }
                    assert forall|p2: int| #![trigger sk.take(p2)] 0 < p2 <= p implies covers(
                        dirs@,
                        sk.take(p2),
                    ) by {}
                }
            } else {
                proof {
                    assert forall|p2: int| #![trigger sk.take(p2)] 0 < p2 <= p implies covers(
                        dirs@,
                        sk.take(p2),
                    ) by {
                        if p2 == p {
                            assert(covers(dirs@, views(prefix@)));
                        }
                    }
                }
            }
            let ghost pre_prefix = views(prefix@);
            prefix.push(comps[p].clone());
            proof {
                assert(views(prefix@) =~= pre_prefix.push(sk[p as int]));
                assert(views(prefix@) =~= sk.take(p + 1));
            }
            p = p + 1;
        }
        proof {
            assert forall|k2: int, p2: int|
                0 <= k2 < k + 1 && 0 < p2 < split_slash_spec(
                    files@[k2].display_name@,
                ).len() implies covers(
                dirs@,
                #[trigger] (split_slash_spec(files@[k2].display_name@).take(p2)),
            ) by {
                if k2 == k {
                    assert(split_slash_spec(files@[k2].display_name@).take(p2) == sk.take(p2));
                    assert(covers(dirs@, sk.take(p2)));
                }
            }
        }
        k = k + 1;
    }
    // One record per directory and per file.
    let ghost dirs_snap = dirs@;
    let dcount = dirs.len();
    let mut recs: Vec<ItemRec> = Vec::new();
    let mut m: usize = 0;
    while m < dirs.len()
        invariant
            m <= dirs@.len(),
            dirs@ == dirs_snap,
            recs@.len() == m,
            forall|m2: int|
                0 <= m2 < m ==> (#[trigger] recs@[m2]).file is None && recs@[m2].comps@
                    == dirs_snap[m2]@,
        decreases dirs@.len() - m,
    {
        let d = clone_comps(&dirs[m]);
        recs.push(ItemRec { comps: d, file: None });
        m = m + 1;
    }
    let fcount = files.len();
    let mut k2: usize = 0;
    while k2 < fcount
        invariant
            fcount == files@.len(),
            k2 <= files@.len(),
            dcount == dirs_snap.len(),
            recs@.len() == dcount + k2,
            forall|m2: int|
                0 <= m2 < dcount ==> (#[trigger] recs@[m2]).file is None && recs@[m2].comps@
                    == dirs_snap[m2]@,
            forall|k3: int|
                0 <= k3 < k2 ==> (#[trigger] recs@[dcount + k3]).file == Some(k3 as usize)
                    && views(recs@[dcount + k3].comps@) == split_slash_spec(
                    files@[k3].display_name@,
                ),
        decreases files@.len() - k2,
    {
        let comps = split_slash(files[k2].display_name.as_str());
        proof {
            assert(views(comps@) =~= split_slash_spec(files@[k2 as int].display_name@));
        }
        recs.push(ItemRec { comps, file: Some(k2) });
        k2 = k2 + 1;
    }
    proof {
        // The record keys are pairwise distinct.
        assert forall|i: int, j: int| 0 <= i < j < recs@.len() implies rec_key(#[trigger] recs@[i])
            != rec_key(#[trigger] recs@[j]) by {
            if j < dcount {
                assert(recs@[i].comps@ == dirs_snap[i]@);
                assert(recs@[j].comps@ == dirs_snap[j]@);
                assert(dirs_snap[i] == dirs@[i]);
                assert(dirs_snap[j] == dirs@[j]);
                assert(views(dirs@[i]@) != views(dirs@[j]@));
            } else if i < dcount {
                assert(recs@[i].file is None);
                let kb = j - dcount;
                assert(recs@[dcount + kb] == recs@[j]);
                assert(recs@[dcount + kb].file == Some(kb as usize));
            } else {
                let ka = i - dcount;
                let kb = j - dcount;
                assert(recs@[dcount + ka] == recs@[i]);
                assert(recs@[dcount + kb] == recs@[j]);
                assert(recs@[dcount + ka].file == Some(ka as usize));
                assert(recs@[dcount + kb].file == Some(kb as usize));
                assert(views(recs@[i].comps@) == split_slash_spec(files@[ka].display_name@));
                assert(views(recs@[j].comps@) == split_slash_spec(files@[kb].display_name@));
                if views(recs@[i].comps@) == views(recs@[j].comps@) {
                    crate::text::lemma_join_split(files@[ka].display_name@, '/');
                    crate::text::lemma_join_split(files@[kb].display_name@, '/');
                    assert(files@[ka].display_name@ == files@[kb].display_name@);
                }
            }
        }
    }
    let ghost recs_snap = recs@;
    let sorted = sort_recs(recs);
    proof {
        crate::text::lemma_distinct_key_transfer(
            recs_snap,
            sorted@,
            |r: ItemRec| rec_key(r),
        );
        // Every sorted record is one of the built records.
        assert forall|i: int| 0 <= i < sorted@.len() implies recs_snap.contains(
            #[trigger] sorted@[i],
        ) by {
            vstd::seq_lib::to_multiset_contains(sorted@, sorted@[i]);
            vstd::seq_lib::to_multiset_contains(recs_snap, sorted@[i]);
            assert(sorted@.contains(sorted@[i]));
        }
    }
    // Turn the sorted records into the item list.
    let mut items: Vec<SelectableItem> = Vec::new();
    let mut i: usize = 0;
    while i < sorted.len()
        invariant
            i <= sorted@.len(),
            items@.len() == i,
            fcount == files@.len(),
            dcount == dirs_snap.len(),
            recs_snap.len() == dcount + files@.len(),
            forall|m2: int|
                0 <= m2 < dcount ==> (#[trigger] recs_snap[m2]).file is None
                    && recs_snap[m2].comps@ == dirs_snap[m2]@ && is_dir_prefix_of(
                    files@,
                    views(recs_snap[m2].comps@),
                ),
            forall|k3: int|
                0 <= k3 < files@.len() ==> (#[trigger] recs_snap[dcount + k3]).file == Some(
                    k3 as usize,
                ) && views(recs_snap[dcount + k3].comps@) == split_slash_spec(
                    files@[k3].display_name@,
                ),
            forall|i2: int|
                0 <= i2 < sorted@.len() ==> recs_snap.contains(#[trigger] sorted@[i2]),
            forall|i2: int|
                0 <= i2 < i ==> comps_of(#[trigger] items@[i2]) == views(sorted@[i2].comps@)
                    && is_file_item(items@[i2]) == (sorted@[i2].file is Some) && dir_fields_ok(
                    items@[i2],
                ) && depth_of(items@[i2]) + 1 == views(sorted@[i2].comps@).len(),
            forall|i2: int|
                0 <= i2 < i ==> ((#[trigger] sorted@[i2].file) matches Some(kf) ==> 0 <= kf
                    < files@.len() && file_matches(items@[i2], files@[kf as int])),
            forall|i2: int|
                0 <= i2 < i ==> ((#[trigger] items@[i2]) matches SelectableItem::Directory {
                    child_indices,
                    ..
                } ==> {
                    &&& forall|u: int, v: int|
                        0 <= u < v < child_indices@.len() ==> child_indices@[u]
                            < child_indices@[v]
                    &&& forall|u: int|
                        0 <= u < child_indices@.len() ==> (#[trigger] child_indices@[u])
                            < sorted@.len()
                    &&& forall|j: int|
                        0 <= j < sorted@.len() ==> (child_indices@.contains(j as usize)
                            <==> comps_child(
                            views((#[trigger] sorted@[j]).comps@),
                            views(sorted@[i2].comps@),
                        ))
                }),
        decreases sorted@.len() - i,
    {
        let rec_file = sorted[i].file;
        match rec_file {
            Some(kf) => {
                proof {
                    // This record came from the file phase, so its index
                    // is a valid file index with the file's components.
                    assert(recs_snap.contains(sorted@[i as int]));
                    let w = choose|w: int|
                        0 <= w < recs_snap.len() && recs_snap[w] == sorted@[i as int];
                    assert(recs_snap[w].file == Some(kf));
                    assert(w >= dcount);
                    let kf0 = w - dcount;
                    assert(0 <= kf0 < files@.len());
                    assert(recs_snap[dcount + kf0] == recs_snap[w]);
                    assert(recs_snap[dcount + kf0].file == Some(kf0 as usize));
                    assert(kf == kf0 as usize);
                    assert(kf as int == kf0);
                    assert(views(recs_snap[dcount + kf0].comps@) == split_slash_spec(
                        files@[kf0].display_name@,
                    ));
                    assert(sorted@[i as int].comps@ == recs_snap[dcount + kf0].comps@);
                    assert(views(sorted@[i as int].comps@) == split_slash_spec(
                        files@[kf as int].display_name@,
                    ));
                    crate::text::lemma_split_char_len(files@[kf as int].display_name@, '/');
                }
                let info = PreprocessedFileInfo {
                    path: files[kf].path.clone(),
                    display_name: files[kf].display_name.clone(),
                };
                let dlen = sorted[i].comps.len();
                items.push(SelectableItem::File { info, depth: dlen - 1 });
            },
            None => {
                let kids = scan_children(&sorted, i);
                let comps2 = clone_comps(&sorted[i].comps);
                let dlen = comps2.len();
                proof {
                    assert(recs_snap.contains(sorted@[i as int]));
                    let w = choose|w: int|
                        0 <= w < recs_snap.len() && recs_snap[w] == sorted@[i as int];
                    assert(w < dcount) by {
                        if w >= dcount {
                            let kf0 = w - dcount;
                            assert(recs_snap[dcount + kf0] == recs_snap[w]);
                            assert(recs_snap[dcount + kf0].file == Some(kf0 as usize));
                        }
                    }
                    assert(is_dir_prefix_of(files@, views(recs_snap[w].comps@)));
                    assert(views(sorted@[i as int].comps@) == views(recs_snap[w].comps@));
                    let (kk, pp) = choose|kk: int, pp: int|
                        {
                            &&& 0 <= kk < files@.len()
                            &&& 0 < pp < split_slash_spec(files@[kk].display_name@).len()
                            &&& views(recs_snap[w].comps@) == #[trigger] (split_slash_spec(
                                files@[kk].display_name@,
                            ).take(pp))
                        };
                    assert(views(sorted@[i as int].comps@).len() == pp);
                    assert(dlen >= 1);
                }
                let dname = sorted[i].comps[dlen - 1].clone();
                items.push(
                    SelectableItem::Directory {
                        components: comps2,
                        display_name: dname,
                        depth: dlen - 1,
                        child_indices: kids,
                    },
                );
                proof {
                    assert(comps_of(items@[items@.len() - 1]) =~= views(
                        sorted@[i as int].comps@,
                    ));
                }
            },
        }
        i = i + 1;
    }
    proof {
        let fs = files@;
        let its = items@;
        // Strictly ascending keys.
        assert forall|a: int, b: int| 0 <= a < b < its.len() implies item_key_le(
            #[trigger] its[a],
            #[trigger] its[b],
        ) && item_key(its[a]) != item_key(its[b]) by {
            assert(comps_of(its[a]) == views(sorted@[a].comps@));
            assert(comps_of(its[b]) == views(sorted@[b].comps@));
            assert(rec_key(sorted@[a]) != rec_key(sorted@[b]));
        }
        // Every input file appears.
        assert forall|kx: int| 0 <= kx < fs.len() implies has_file_item(
            its,
            #[trigger] fs[kx],
        ) by {
            let rec = recs_snap[dcount + kx];
            vstd::seq_lib::to_multiset_contains(recs_snap, rec);
            vstd::seq_lib::to_multiset_contains(sorted@, rec);
            assert(recs_snap.contains(rec)) by {
                assert(recs_snap[dcount + kx] == rec);
            }
            assert(sorted@.contains(rec));
            let ix = choose|ix: int| 0 <= ix < sorted@.len() && sorted@[ix] == rec;
            assert(sorted@[ix].file == Some(kx as usize));
            assert(file_matches(its[ix], fs[kx]));
        }
        // Every directory prefix appears.
        assert forall|kx: int, px: int|
            0 <= kx < fs.len() && 0 < px < split_slash_spec(
                fs[kx].display_name@,
            ).len() implies has_dir_item(
            its,
            #[trigger] (split_slash_spec(fs[kx].display_name@).take(px)),
        ) by {
            assert(covers(dirs_snap, split_slash_spec(fs[kx].display_name@).take(px)));
            let mm = choose|mm: int|
                0 <= mm < dirs_snap.len() && views((#[trigger] dirs_snap[mm])@)
                    == split_slash_spec(fs[kx].display_name@).take(px);
            let rec = recs_snap[mm];
            vstd::seq_lib::to_multiset_contains(recs_snap, rec);
            vstd::seq_lib::to_multiset_contains(sorted@, rec);
            assert(recs_snap.contains(rec)) by {
                assert(recs_snap[mm] == rec);
            }
            assert(sorted@.contains(rec));
            let ix = choose|ix: int| 0 <= ix < sorted@.len() && sorted@[ix] == rec;
            assert(views(sorted@[ix].comps@) == split_slash_spec(fs[kx].display_name@).take(px));
            assert(!is_file_item(its[ix]));
            assert(comps_of(its[ix]) == split_slash_spec(fs[kx].display_name@).take(px));
        }
        // Only input files appear as file items; directories are prefixes.
        assert forall|ix: int|
            0 <= ix < its.len() implies (is_file_item(#[trigger] its[ix]) ==> exists|kx: int|
            0 <= kx < fs.len() && file_matches(its[ix], #[trigger] fs[kx])) && (!is_file_item(
            its[ix],
        ) ==> is_dir_prefix_of(fs, comps_of(its[ix]))) by {
            let w = choose|w: int| 0 <= w < recs_snap.len() && recs_snap[w] == sorted@[ix];
            if is_file_item(its[ix]) {
                assert(sorted@[ix].file is Some);
                let kf = sorted@[ix].file->0;
                assert(0 <= kf < fs.len() && file_matches(its[ix], fs[kf as int]));
            } else {
                assert(sorted@[ix].file is None);
                assert(w < dcount) by {
                    if w >= dcount {
                        let kf0 = w - dcount;
                        assert(recs_snap[dcount + kf0] == recs_snap[w]);
                        assert(recs_snap[dcount + kf0].file == Some(kf0 as usize));
                    }
                }
                assert(is_dir_prefix_of(fs, views(recs_snap[w].comps@)));
                assert(comps_of(its[ix]) == views(sorted@[ix].comps@));
                assert(views(sorted@[ix].comps@) == views(recs_snap[w].comps@));
            }
        }
        // Children characterizations carry over to items, since item
        // components equal record components index for index.
        assert forall|ix: int| 0 <= ix < its.len() implies children_ok(its, ix) by {
            if its[ix] is Directory {
                let ci = its[ix]->Directory_child_indices;
                assert forall|j: int|
                    0 <= j < its.len() implies (ci@.contains(j as usize) <==> is_child(
                    its,
                    ix,
                    j,
                )) by {
                    assert(comps_of(its[j]) == views(sorted@[j].comps@));
                    assert(comps_of(its[ix]) == views(sorted@[ix].comps@));
                }
            }
        }
    }
    items
}


/// Every directory's child indices point past it, within bounds: the
/// forest property that makes downward traversal terminate.
pub open spec fn forest_valid(items: Seq<SelectableItem>) -> bool {
    forall|i: int, u: int|
        0 <= i < items.len() && items[i] is Directory && 0 <= u < (
        items[i]->Directory_child_indices)@.len() ==> i < #[trigger] (
        items[i]->Directory_child_indices)@[u] < items.len()
}

/// Whether item `d` lies somewhere below directory `a`.
pub open spec fn desc(items: Seq<SelectableItem>, a: int, d: int) -> bool
    decreases items.len() - a
        when forest_valid(items) && 0 <= a < items.len()
{
    items[a] is Directory && exists|u: int|
        {
            &&& 0 <= u < (items[a]->Directory_child_indices)@.len()
            &&& ((#[trigger] (items[a]->Directory_child_indices)@[u]) == d || desc(
                items,
                (items[a]->Directory_child_indices)@[u] as int,
                d,
            ))
        }
}

/// Whether `j` is reachable from one of the listed indices.
pub open spec fn reaches(items: Seq<SelectableItem>, idxs: Seq<usize>, j: int) -> bool {
    exists|u: int|
        0 <= u < idxs.len() && ((#[trigger] idxs[u]) == j || desc(items, idxs[u] as int, j))
}

proof fn lemma_push_contains(s: Seq<usize>, x: usize, y: usize)
    ensures
        s.push(x).contains(y) <==> (s.contains(y) || x == y),
{
    if s.push(x).contains(y) {
        let w = choose|w: int| 0 <= w < s.push(x).len() && s.push(x)[w] == y;
        if w < s.len() {
            assert(s[w] == y);
        }
    }
    if s.contains(y) {
        let w = choose|w: int| 0 <= w < s.len() && s[w] == y;
        assert(s.push(x)[w] == y);
    }
    if x == y {
        assert(s.push(x)[s.len() as int] == y);
    }
}

fn collect_desc_inner(
    items: &Vec<SelectableItem>,
    child_indices: &Vec<usize>,
    result: &mut Vec<usize>,
    lower: Ghost<int>,
)
    requires
        forest_valid(items@),
        forall|u: int|
            0 <= u < child_indices@.len() ==> lower@ < #[trigger] child_indices@[u]
                < items@.len(),
        lower@ >= -1,
    ensures
        final(result)@.len() >= old(result)@.len(),
        final(result)@.take(old(result)@.len() as int) == old(result)@,
        forall|jv: usize|
            final(result)@.skip(old(result)@.len() as int).contains(jv) <==> reaches(
                items@,
                child_indices@,
                jv as int,
            ),
    decreases items@.len() - lower@,
{
    let ghost base = result@;
    let mut u: usize = 0;
    proof {
        assert(result@.take(base.len() as int) =~= base);
        assert(result@.skip(base.len() as int) =~= Seq::<usize>::empty());
    }
    while u < child_indices.len()
        invariant
            u <= child_indices@.len(),
            forest_valid(items@),
            forall|u2: int|
                0 <= u2 < child_indices@.len() ==> lower@ < #[trigger] child_indices@[u2]
                    < items@.len(),
            lower@ >= -1,
            result@.len() >= base.len(),
            result@.take(base.len() as int) == base,
            forall|jv: usize|
                result@.skip(base.len() as int).contains(jv) <==> reaches(
                    items@,
                    child_indices@.take(u as int),
                    jv as int,
                ),
        decreases child_indices@.len() - u,
    {
        let c = child_indices[u];
        let ghost pre = result@;
        result.push(c);
        proof {
            assert(result@.take(base.len() as int) =~= base);
            assert(result@.skip(base.len() as int) =~= pre.skip(base.len() as int).push(c));
        }
        match &items[c] {
            SelectableItem::Directory { child_indices: kids, .. } => {
                let ghost mid = result@;
                collect_desc_inner(items, kids, result, Ghost(c as int));
                proof {
                    let bl = base.len() as int;
                    assert(result@.take(bl) =~= result@.take(mid.len() as int).take(bl));
                    assert(result@.take(mid.len() as int) == mid);
                    assert(mid.take(bl) == base);
                    let added = result@.skip(mid.len() as int);
                    assert(items@[c as int] is Directory);
                    assert((items@[c as int]->Directory_child_indices)@ == kids@);
                    assert forall|jv: usize|
                        result@.skip(bl).contains(jv) <==> reaches(
                            items@,
                            child_indices@.take(u + 1),
                            jv as int,
                        ) by {
                        let cs = child_indices@.take(u + 1);
                        let csu = child_indices@.take(u as int);
                        assert(cs[u as int] == c);
                        lemma_push_contains(pre.skip(bl), c, jv);
                        assert(mid.skip(bl) =~= pre.skip(bl).push(c));
                        assert(result@.skip(bl) =~= mid.skip(bl) + added);
                        // membership in the combined suffix
                        let combined_holds = result@.skip(bl).contains(jv);
                        if combined_holds {
                            let w = choose|w: int|
                                0 <= w < result@.skip(bl).len() && result@.skip(bl)[w] == jv;
                            if w < mid.len() - base.len() {
                                assert(mid.skip(bl)[w] == jv);
                                assert(pre.skip(bl).contains(jv) || jv == c);
                                if pre.skip(bl).contains(jv) {
                                    assert(reaches(items@, csu, jv as int));
                                    let w2 = choose|w2: int|
                                        0 <= w2 < csu.len() && ((#[trigger] csu[w2]) == jv as int
                                            || desc(items@, csu[w2] as int, jv as int));
                                    assert(cs[w2] == csu[w2]);
                                    assert(reaches(items@, cs, jv as int));
                                } else {
                                    assert(cs[u as int] == jv as int);
                                    assert(reaches(items@, cs, jv as int));
                                }
                            } else {
                                assert(added[w - (mid.len() - base.len())] == jv);
                                assert(added.contains(jv));
                                assert(reaches(items@, kids@, jv as int));
                                let w2 = choose|w2: int|
                                    0 <= w2 < kids@.len() && ((#[trigger] kids@[w2])
                                        == jv as int || desc(
                                        items@,
                                        kids@[w2] as int,
                                        jv as int,
                                    ));
                                assert(desc(items@, c as int, jv as int)) by {
                                    assert(0 <= w2 < (
                                    items@[c as int]->Directory_child_indices)@.len() && (((
                                    items@[c as int]->Directory_child_indices)@[w2])
                                        == jv as int || desc(
                                        items@,
                                        (items@[c as int]->Directory_child_indices)@[w2] as int,
                                        jv as int,
                                    )));
                                }
                                assert(reaches(items@, cs, jv as int));
                            }
                        }
                        if reaches(items@, cs, jv as int) {
                            let w = choose|w: int|
                                0 <= w < cs.len() && ((#[trigger] cs[w]) == jv as int || desc(
                                    items@,
                                    cs[w] as int,
                                    jv as int,
                                ));
                            if w < u {
                                assert(csu[w] == cs[w]);
                                assert(reaches(items@, csu, jv as int));
                                assert(pre.skip(bl).contains(jv));
                                let w3 = choose|w3: int|
                                    0 <= w3 < pre.skip(bl).len() && pre.skip(bl)[w3] == jv;
                                assert(mid.skip(bl)[w3] == jv);
                                assert(result@.skip(bl)[w3] == jv);
                            } else {
                                assert(cs[w] == c);
                                if cs[w] == jv as int {
                                    assert(mid.skip(bl).last() == jv);
                                    assert(result@.skip(bl)[mid.len() - base.len() - 1] == jv);
                                } else {
                                    assert(desc(items@, c as int, jv as int));
                                    let w2 = choose|w2: int|
                                        {
                                            &&& 0 <= w2 < (
                                            items@[c as int]->Directory_child_indices)@.len()
                                            &&& ((#[trigger] (
                                            items@[c as int]->Directory_child_indices)@[w2])
                                                == jv as int || desc(
                                                items@,
                                                (
                                                items@[c as int]->Directory_child_indices)@[w2] as int,
                                                jv as int,
                                            ))
                                        };
                                    assert(kids@[w2] == jv || desc(
                                        items@,
                                        kids@[w2] as int,
                                        jv as int,
                                    ));
                                    assert(reaches(items@, kids@, jv as int));
                                    assert(added.contains(jv));
                                    let w3 = choose|w3: int|
                                        0 <= w3 < added.len() && added[w3] == jv;
                                    assert(result@.skip(bl)[w3 + (mid.len() - base.len())]
                                        == jv);
                                }
                            }
                        }
                    }
                }
            },
            SelectableItem::File { .. } => {
                proof {
                    let bl = base.len() as int;
                    assert(!(items@[c as int] is Directory));
                    assert forall|jv: usize|
                        result@.skip(bl).contains(jv) <==> reaches(
                            items@,
                            child_indices@.take(u + 1),
                            jv as int,
                        ) by {
                        let cs = child_indices@.take(u + 1);
                        let csu = child_indices@.take(u as int);
                        assert(cs[u as int] == c);
                        lemma_push_contains(pre.skip(bl), c, jv);
                        assert(result@.skip(bl) =~= pre.skip(bl).push(c));
                        if result@.skip(bl).contains(jv) {
                            if pre.skip(bl).contains(jv) {
                                assert(reaches(items@, csu, jv as int));
                                let w2 = choose|w2: int|
                                    0 <= w2 < csu.len() && ((#[trigger] csu[w2]) == jv as int
                                        || desc(items@, csu[w2] as int, jv as int));
                                assert(cs[w2] == csu[w2]);
                                assert(reaches(items@, cs, jv as int));
                            } else {
                                assert(jv == c);
                                assert(cs[u as int] == jv as int);
                                assert(reaches(items@, cs, jv as int));
                            }
                        }
                        if reaches(items@, cs, jv as int) {
                            let w = choose|w: int|
                                0 <= w < cs.len() && ((#[trigger] cs[w]) == jv as int || desc(
                                    items@,
                                    cs[w] as int,
                                    jv as int,
                                ));
                            if w < u {
                                assert(csu[w] == cs[w]);
                                assert(reaches(items@, csu, jv as int));
                                assert(pre.skip(bl).contains(jv));
                            } else {
                                assert(cs[w] == c);
                                assert(!desc(items@, c as int, jv as int));
                                assert(jv == c);
                            }
                            assert(result@.skip(bl).contains(jv));
                        }
                    }
                }
            },
        }
        u = u + 1;
    }
    proof {
        assert(child_indices@.take(u as int) =~= child_indices@);
    }
}

/// Collects every index reachable below the given child indices:
/// the children themselves and, recursively, the contents of child
/// directories.
pub fn collect_all_descendants(
    items: &Vec<SelectableItem>,
    child_indices: &Vec<usize>,
    result: &mut Vec<usize>,
)
    requires
        forest_valid(items@),
        forall|u: int| 0 <= u < child_indices@.len() ==> #[trigger] child_indices@[u] < items@.len(),
    ensures
        final(result)@.len() >= old(result)@.len(),
        final(result)@.take(old(result)@.len() as int) == old(result)@,
        forall|jv: usize|
            final(result)@.skip(old(result)@.len() as int).contains(jv) <==> reaches(
                items@,
                child_indices@,
                jv as int,
            ),
{
    collect_desc_inner(items, child_indices, result, Ghost(-1));
}


/// A descendant index lies within the item list.
pub proof fn lemma_desc_bounds(items: Seq<SelectableItem>, a: int, d: int)
    requires
        forest_valid(items),
        0 <= a < items.len(),
        desc(items, a, d),
    ensures
        0 <= d < items.len(),
    decreases items.len() - a,
{
    let kids = (items[a]->Directory_child_indices)@;
    let u = choose|u: int|
        {
            &&& 0 <= u < kids.len()
            &&& ((#[trigger] kids[u]) == d || desc(items, kids[u] as int, d))
        };
    if kids[u] == d {
    } else {
        lemma_desc_bounds(items, kids[u] as int, d);
    }
}

/// Whether item `i` ends up selected: it was checked itself, or it lies
/// below some checked directory and was not explicitly deselected — an
/// explicit deselection always wins over a folder-level selection.
pub open spec fn sel_final(
    items: Seq<SelectableItem>,
    checked: Seq<bool>,
    deselected: Seq<bool>,
    i: int,
) -> bool {
    checked[i] || (!deselected[i] && exists|j: int|
        0 <= j < items.len() && checked[j] && items[j] is Directory && #[trigger] desc(
            items,
            j,
            i,
        ))
}

/// The kept file paths among the first `n` items, in item order.
pub open spec fn kept_upto(
    items: Seq<SelectableItem>,
    checked: Seq<bool>,
    deselected: Seq<bool>,
    n: int,
) -> Seq<Seq<char>>
    decreases n,
{
    if n <= 0 {
        Seq::empty()
    } else {
        kept_upto(items, checked, deselected, n - 1) + (if items[n - 1] is File && sel_final(
            items,
            checked,
            deselected,
            n - 1,
        ) {
            seq![(items[n - 1]->File_info).path@]
        } else {
            Seq::empty()
        })
    }
}

/// Reconciles the operator's raw check state against the tree: every
/// checked directory pulls in its descendants, except those explicitly
/// deselected; the kept file paths come back in item order.
pub fn reconcile_selection(
    items: &Vec<SelectableItem>,
    checked: &Vec<bool>,
    deselected: &Vec<bool>,
) -> (kept: Vec<String>)
    requires
        forest_valid(items@),
        checked@.len() == items@.len(),
        deselected@.len() == items@.len(),
    ensures
        views(kept@) == kept_upto(items@, checked@, deselected@, items@.len() as int),
{
    let n = items.len();
    let mut marks: Vec<bool> = Vec::new();
    let mut i0: usize = 0;
    while i0 < n
        invariant
            i0 <= n,
            n == items@.len(),
            checked@.len() == n,
            marks@.len() == i0,
            forall|i: int| 0 <= i < i0 ==> #[trigger] marks@[i] == checked@[i],
        decreases n - i0,
    {
        marks.push(checked[i0]);
        i0 = i0 + 1;
    }
    let mut j: usize = 0;
    while j < n
        invariant
            j <= n,
            n == items@.len(),
            forest_valid(items@),
            checked@.len() == n,
            deselected@.len() == n,
            marks@.len() == n,
            forall|i: int|
                0 <= i < n ==> #[trigger] marks@[i] == (checked@[i] || (!deselected@[i]
                    && exists|j2: int|
                    0 <= j2 < j && checked@[j2] && items@[j2] is Directory && #[trigger] desc(
                        items@,
                        j2,
                        i,
                    ))),
        decreases n - j,
    {
        let is_checked_dir = checked[j] && matches!(&items[j], SelectableItem::Directory { .. });
        if is_checked_dir {
            let mut dlist: Vec<usize> = Vec::new();
            match &items[j] {
                SelectableItem::Directory { child_indices: kids, .. } => {
                    proof {
                        assert(items@[j as int] is Directory);
                        assert((items@[j as int]->Directory_child_indices)@ == kids@);
                        assert forall|u: int|
                            0 <= u < kids@.len() implies #[trigger] kids@[u]
                            < items@.len() by {}
                    }
                    collect_all_descendants(items, kids, &mut dlist);
                    proof {
                        assert(dlist@.skip(0) =~= dlist@);
                        assert forall|jv: usize|
                            dlist@.contains(jv) <==> #[trigger] desc(
                            items@,
                            j as int,
                            jv as int,
                        ) by {
                            if desc(items@, j as int, jv as int) {
                                let w2 = choose|w2: int|
                                    {
                                        &&& 0 <= w2 < (
                                        items@[j as int]->Directory_child_indices)@.len()
                                        &&& ((#[trigger] (
                                        items@[j as int]->Directory_child_indices)@[w2])
                                            == jv as int || desc(
                                            items@,
                                            (
                                            items@[j as int]->Directory_child_indices)@[w2] as int,
                                            jv as int,
                                        ))
                                    };
                                assert(kids@[w2] == jv || desc(
                                    items@,
                                    kids@[w2] as int,
                                    jv as int,
                                ));
                                assert(reaches(items@, kids@, jv as int));
                            }
                            if dlist@.contains(jv) {
                                assert(reaches(items@, kids@, jv as int));
                                let w2 = choose|w2: int|
                                    0 <= w2 < kids@.len() && ((#[trigger] kids@[w2])
                                        == jv as int || desc(
                                        items@,
                                        kids@[w2] as int,
                                        jv as int,
                                    ));
                                assert(desc(items@, j as int, jv as int)) by {
                                    assert(0 <= w2 < (
                                    items@[j as int]->Directory_child_indices)@.len() && (((
                                    items@[j as int]->Directory_child_indices)@[w2])
                                        == jv as int || desc(
                                        items@,
                                        (
                                        items@[j as int]->Directory_child_indices)@[w2] as int,
                                        jv as int,
                                    )));
                                }
                            }
                        }
                    }
                },
                SelectableItem::File { .. } => {
                    proof {
                        assert(false);
                    }
                },
            }
            proof {
                assert forall|u: int| 0 <= u < dlist@.len() implies #[trigger] dlist@[u]
                    < n by {
                    assert(dlist@.contains(dlist@[u]));
                    assert(desc(items@, j as int, dlist@[u] as int));
                    lemma_desc_bounds(items@, j as int, dlist@[u] as int);
                }
            }
            let ghost pre_marks = marks@;
            let mut t: usize = 0;
            while t < dlist.len()
                invariant
                    t <= dlist@.len(),
                    n == items@.len(),
                    j < n,
                    forest_valid(items@),
                    checked@.len() == n,
                    deselected@.len() == n,
                    marks@.len() == n,
                    forall|u: int| 0 <= u < dlist@.len() ==> #[trigger] dlist@[u] < n,
                    forall|jv: usize|
                        dlist@.contains(jv) <==> desc(items@, j as int, jv as int),
                    checked@[j as int],
                    items@[j as int] is Directory,
                    forall|i: int|
                        0 <= i < n ==> #[trigger] marks@[i] == (pre_marks[i] || (
                        !deselected@[i] && exists|t2: int|
                            0 <= t2 < t && (#[trigger] dlist@[t2]) == i)),
                    forall|i: int|
                        0 <= i < n ==> #[trigger] pre_marks[i] == (checked@[i] || (
                        !deselected@[i] && exists|j2: int|
                            0 <= j2 < j && checked@[j2] && items@[j2] is Directory
                                && #[trigger] desc(items@, j2, i))),
                decreases dlist@.len() - t,
            {
                let d = dlist[t];
                proof {
                    assert(dlist@.contains(dlist@[t as int])) by {
                        assert(dlist@[t as int] == dlist@[t as int]);
                    }
                    assert(desc(items@, j as int, d as int));
                }
                if !deselected[d] {
                    let ghost before = marks@;
                    marks[d] = true;
                    proof {
                        assert(marks@ == before.update(d as int, true));
                        assert forall|i: int|
                            0 <= i < n implies #[trigger] marks@[i] == (pre_marks[i] || (
                            !deselected@[i] && exists|t2: int|
                                0 <= t2 < t + 1 && (#[trigger] dlist@[t2]) == i)) by {
                            if i == d as int {
                                assert(dlist@[t as int] == i);
                            } else {
                                assert(marks@[i] == before[i]);
                                if exists|t2: int|
                                    0 <= t2 < t + 1 && (#[trigger] dlist@[t2]) == i {
                                    let t2 = choose|t2: int|
                                        0 <= t2 < t + 1 && (#[trigger] dlist@[t2]) == i;
                                    assert(t2 < t);
                                }
                            }
                        }
                    }
                } else {
                    proof {
                        assert forall|i: int|
                            0 <= i < n implies #[trigger] marks@[i] == (pre_marks[i] || (
                            !deselected@[i] && exists|t2: int|
                                0 <= t2 < t + 1 && (#[trigger] dlist@[t2]) == i)) by {
                            if i == d as int {
                            } else {
                                if exists|t2: int|
                                    0 <= t2 < t + 1 && (#[trigger] dlist@[t2]) == i {
                                    let t2 = choose|t2: int|
                                        0 <= t2 < t + 1 && (#[trigger] dlist@[t2]) == i;
                                    assert(t2 < t);
                                }
                            }
                        }
                    }
                }
                t = t + 1;
            }
            proof {
                assert forall|i: int|
                    0 <= i < n implies #[trigger] marks@[i] == (checked@[i] || (
                    !deselected@[i] && exists|j2: int|
                        0 <= j2 < j + 1 && checked@[j2] && items@[j2] is Directory
                            && #[trigger] desc(items@, j2, i))) by {
                    if marks@[i] {
                        if pre_marks[i] {
                            if !checked@[i] {
                                let j2 = choose|j2: int|
                                    0 <= j2 < j && checked@[j2] && items@[j2] is Directory
                                        && #[trigger] desc(items@, j2, i);
                                assert(desc(items@, j2, i));
                            }
                        } else {
                            let t2 = choose|t2: int|
                                0 <= t2 < dlist@.len() && (#[trigger] dlist@[t2]) == i;
                            assert(dlist@.contains(dlist@[t2]));
                            assert(desc(items@, j as int, i));
                        }
                    } else {
                        if checked@[i] {
                            assert(pre_marks[i]);
                        }
                        if !deselected@[i] && exists|j2: int|
                            0 <= j2 < j + 1 && checked@[j2] && items@[j2] is Directory
                                && #[trigger] desc(items@, j2, i) {
                            let j2 = choose|j2: int|
                                0 <= j2 < j + 1 && checked@[j2] && items@[j2] is Directory
                                    && #[trigger] desc(items@, j2, i);
                            if j2 < j {
                                assert(pre_marks[i]);
                            } else {
                                assert(desc(items@, j as int, i));
                                assert(dlist@.contains(i as usize)) by {
                                    assert(i == (i as usize) as int);
                                }
                                let t2 = choose|t2: int|
                                    0 <= t2 < dlist@.len() && dlist@[t2] == i as usize;
                                assert(dlist@[t2] == i);
                            }
                        }
                    }
                }
            }
        } else {
            proof {
                assert forall|i: int|
                    0 <= i < n implies #[trigger] marks@[i] == (checked@[i] || (
                    !deselected@[i] && exists|j2: int|
                        0 <= j2 < j + 1 && checked@[j2] && items@[j2] is Directory
                            && #[trigger] desc(items@, j2, i))) by {
                    if !marks@[i] && !deselected@[i] {
                        if exists|j2: int|
                            0 <= j2 < j + 1 && checked@[j2] && items@[j2] is Directory
                                && #[trigger] desc(items@, j2, i) {
                            let j2 = choose|j2: int|
                                0 <= j2 < j + 1 && checked@[j2] && items@[j2] is Directory
                                    && #[trigger] desc(items@, j2, i);
                            assert(j2 < j);
                        }
                    }
                }
            }
        }
        j = j + 1;
    }
    // Collect the kept file paths in item order.
    let mut kept: Vec<String> = Vec::new();
    let mut i: usize = 0;
    proof {
        assert(views(kept@) =~= kept_upto(items@, checked@, deselected@, 0));
    }
    while i < n
        invariant
            i <= n,
            n == items@.len(),
            checked@.len() == n,
            deselected@.len() == n,
            marks@.len() == n,
            forall|i2: int|
                0 <= i2 < n ==> #[trigger] marks@[i2] == sel_final(
                    items@,
                    checked@,
                    deselected@,
                    i2,
                ),
            views(kept@) == kept_upto(items@, checked@, deselected@, i as int),
        decreases n - i,
    {
        let ghost pre_kept = views(kept@);
        match &items[i] {
            SelectableItem::File { info, .. } => {
                if marks[i] {
                    kept.push(info.path.clone());
                    proof {
                        assert(views(kept@) =~= pre_kept.push(
                            (items@[i as int]->File_info).path@,
                        ));
                        assert(views(kept@) =~= kept_upto(
                            items@,
                            checked@,
                            deselected@,
                            i + 1,
                        ));
                    }
                } else {
                    proof {
                        assert(views(kept@) =~= kept_upto(
                            items@,
                            checked@,
                            deselected@,
                            i + 1,
                        ));
                    }
                }
            },
            SelectableItem::Directory { .. } => {
                proof {
                    assert(views(kept@) =~= kept_upto(items@, checked@, deselected@, i + 1));
                }
            },
        }
        i = i + 1;
    }
    kept
}


/// The paths of a file list.
pub open spec fn file_paths(fs: Seq<PreprocessedFileInfo>) -> Seq<Seq<char>> {
    fs.map_values(|f: PreprocessedFileInfo| f.path@)
}

/// Plans the file cleanup: the files to delete are those not selected.
/// If nothing was discovered or nothing was selected, nothing at all is
/// deleted — an empty selection means the selection was aborted, not
/// that everything should go.
pub fn plan_cleanup(all_files: &Vec<PreprocessedFileInfo>, selected: &Vec<String>) -> (doomed: Vec<
    String,
>)
    ensures
        all_files@.len() == 0 || selected@.len() == 0 ==> doomed@.len() == 0,
        all_files@.len() > 0 && selected@.len() > 0 ==> views(doomed@) == file_paths(
            all_files@,
        ).filter(|p: Seq<char>| !spec_contains_str(selected@, p)),
{
    if all_files.len() == 0 || selected.len() == 0 {
        let r: Vec<String> = Vec::new();
        return r;
    }
    let ghost pred = |p: Seq<char>| !spec_contains_str(selected@, p);
    let mut doomed: Vec<String> = Vec::new();
    let mut i: usize = 0;
    proof {
        reveal(Seq::filter);
        assert(file_paths(all_files@).take(0) =~= Seq::<Seq<char>>::empty());
        assert(views(doomed@) =~= file_paths(all_files@).take(0).filter(pred));
    }
    while i < all_files.len()
        invariant
            i <= all_files@.len(),
            pred == (|p: Seq<char>| !spec_contains_str(selected@, p)),
            views(doomed@) == file_paths(all_files@).take(i as int).filter(pred),
        decreases all_files@.len() - i,
    {
        proof {
            reveal(Seq::filter);
            assert(file_paths(all_files@).take(i + 1).drop_last() =~= file_paths(
                all_files@,
            ).take(i as int));
            assert(file_paths(all_files@).take(i + 1).last() == all_files@[i as int].path@);
        }
        let ghost pre = views(doomed@);
        if !crate::text::contains_str(selected, all_files[i].path.as_str()) {
            doomed.push(all_files[i].path.clone());
            proof {
                assert(views(doomed@) =~= pre.push(all_files@[i as int].path@));
                assert(views(doomed@) =~= file_paths(all_files@).take(i + 1).filter(pred));
            }
        } else {
            proof {
                assert(views(doomed@) =~= file_paths(all_files@).take(i + 1).filter(pred));
            }
        }
        i = i + 1;
    }
    proof {
        assert(file_paths(all_files@).take(i as int) =~= file_paths(all_files@));
    }
    doomed
}

/// Whether `a` is a strict ancestor directory of the relative file path
/// `f`: a non-empty prefix ending just before a `/`.
pub open spec fn is_strict_ancestor(a: Seq<char>, f: Seq<char>) -> bool {
    &&& a.len() > 0
    &&& a.len() < f.len()
    &&& f.take(a.len() as int) == a
    &&& f[a.len() as int] == '/'
}

/// Whether `x` is a strict ancestor of one of the deleted files.
pub open spec fn ancestor_of_some(deleted: Seq<String>, x: Seq<char>) -> bool {
    exists|k: int| 0 <= k < deleted.len() && is_strict_ancestor(x, (#[trigger] deleted[k])@)
}

/// What directory-cleanup planning guarantees: the candidates are
/// exactly the strict ancestors of the deleted files, once each, deepest
/// first. Every candidate is a non-empty relative path, so the cleanup
/// never inspects or removes the root itself or anything above it.
pub open spec fn dir_plan_post(deleted: Seq<String>, cands: Seq<String>) -> bool {
    &&& forall|x: Seq<char>| spec_contains_str(cands, x) <==> ancestor_of_some(deleted, x)
    &&& forall|i: int, j: int| 0 <= i < j < cands.len() ==> (#[trigger] cands[i]@) != (#[trigger] cands[j]@)
    &&& forall|i: int, j: int|
        0 <= i < j < cands.len() ==> count_char((#[trigger] cands[i])@, '/') >= count_char(
            (#[trigger] cands[j])@,
            '/',
        )
}

/// Plans the empty-directory cleanup after deleting the given relative
/// file paths: all their strict ancestor directories, deepest first.
pub fn plan_directory_cleanup(deleted: &Vec<String>) -> (cands: Vec<String>)
    ensures
        dir_plan_post(deleted@, cands@),
{
    broadcast use vstd::seq_lib::group_to_multiset_ensures;
    broadcast use vstd::multiset::group_multiset_axioms;

    let mut raw: Vec<String> = Vec::new();
    let mut k: usize = 0;
    while k < deleted.len()
        invariant
            k <= deleted@.len(),
            forall|i: int, j: int|
                0 <= i < j < raw@.len() ==> (#[trigger] raw@[i]@) != (#[trigger] raw@[j]@),
            forall|x: Seq<char>|
                spec_contains_str(raw@, x) <==> exists|k2: int|
                    0 <= k2 < k && is_strict_ancestor(x, (#[trigger] deleted@[k2])@),
        decreases deleted@.len() - k,
    {
        let f = deleted[k].as_str();
        let flen = f.unicode_len();
        let mut p: usize = 0;
        while p < flen
            invariant
                p <= flen,
                flen == f@.len(),
                f@ == deleted@[k as int]@,
                k < deleted@.len(),
                forall|i: int, j: int|
                    0 <= i < j < raw@.len() ==> (#[trigger] raw@[i]@) != (#[trigger] raw@[j]@),
                forall|x: Seq<char>|
                    spec_contains_str(raw@, x) <==> (exists|k2: int|
                        0 <= k2 < k && is_strict_ancestor(x, (#[trigger] deleted@[k2])@)
                        || (x.len() < p && is_strict_ancestor(x, deleted@[k as int]@))),
            decreases flen - p,
        {
            let c = f.get_char(p);
            if c == '/' && p > 0 {
                let a = f.substring_char(0, p);
                proof {
                    assert(a@ =~= deleted@[k as int]@.take(p as int));
                    assert(is_strict_ancestor(a@, deleted@[k as int]@));
                }
                let ghost pre = raw@;
                if !crate::text::contains_str(&raw, a) {
                    raw.push(String::from_str(a));
                    proof {
                        assert(raw@[raw@.len() - 1]@ == deleted@[k as int]@.take(p as int));
                        assert forall|x: Seq<char>|
                            spec_contains_str(raw@, x) <==> (exists|k2: int|
                                0 <= k2 < k && is_strict_ancestor(
                                    x,
                                    (#[trigger] deleted@[k2])@,
                                ) || (x.len() < p + 1 && is_strict_ancestor(
                                    x,
                                    deleted@[k as int]@,
                                ))) by {
                            if spec_contains_str(raw@, x) {
                                let w = choose|w: int| 0 <= w < raw@.len() && raw@[w]@ == x;
                                if w < pre.len() {
                                    assert(spec_contains_str(pre, x)) by {
                                        assert(pre[w]@ == x);
                                    }
                                } else {
                                    assert(x == a@);
                                    assert(x.len() == p);
                                }
                            }
                            if exists|k2: int|
                                0 <= k2 < k && is_strict_ancestor(
                                    x,
                                    (#[trigger] deleted@[k2])@,
                                ) || (x.len() < p + 1 && is_strict_ancestor(
                                    x,
                                    deleted@[k as int]@,
                                )) {
                                if exists|k2: int|
                                    0 <= k2 < k && is_strict_ancestor(
                                        x,
                                        (#[trigger] deleted@[k2])@,
                                    ) || (x.len() < p && is_strict_ancestor(
                                        x,
                                        deleted@[k as int]@,
                                    )) {
                                    assert(spec_contains_str(pre, x));
                                    let w = choose|w: int|
                                        0 <= w < pre.len() && pre[w]@ == x;
                                    assert(raw@[w]@ == x);
                                } else {
                                    assert(x.len() == p && is_strict_ancestor(
                                        x,
                                        deleted@[k as int]@,
                                    ));
                                    assert(x == deleted@[k as int]@.take(p as int));
                                    assert(raw@[raw@.len() - 1]@ == x);
                                }
                            }
                        }
                    }
                } else {
                    proof {
                        assert forall|x: Seq<char>|
                            spec_contains_str(raw@, x) <==> (exists|k2: int|
                                0 <= k2 < k && is_strict_ancestor(
                                    x,
                                    (#[trigger] deleted@[k2])@,
                                ) || (x.len() < p + 1 && is_strict_ancestor(
                                    x,
                                    deleted@[k as int]@,
                                ))) by {
                            if !spec_contains_str(raw@, x) && x.len() == p
                                && is_strict_ancestor(x, deleted@[k as int]@) {
                                assert(x == deleted@[k as int]@.take(p as int));
                                assert(x == a@);
                                assert(spec_contains_str(raw@, a@));
                            }
                        }
                    }
                }
            } else {
                proof {
                    assert forall|x: Seq<char>|
                        spec_contains_str(raw@, x) <==> (exists|k2: int|
                            0 <= k2 < k && is_strict_ancestor(x, (#[trigger] deleted@[k2])@)
                            || (x.len() < p + 1 && is_strict_ancestor(
                                x,
                                deleted@[k as int]@,
                            ))) by {
                        if !spec_contains_str(raw@, x) && x.len() == p && is_strict_ancestor(
                            x,
                            deleted@[k as int]@,
                        ) {
                            assert(deleted@[k as int]@[p as int] == '/');
                            if p == 0 {
                                assert(x.len() > 0);
                            }
                        }
                    }
                }
            }
            p = p + 1;
        }
        proof {
            assert forall|x: Seq<char>|
                spec_contains_str(raw@, x) <==> (exists|k2: int|
                    0 <= k2 < k + 1 && is_strict_ancestor(
                        x,
                        (#[trigger] deleted@[k2])@,
                    )) by {
                if spec_contains_str(raw@, x) {
                    if !(exists|k2: int|
                        0 <= k2 < k && is_strict_ancestor(x, (#[trigger] deleted@[k2])@)) {
                        assert(x.len() < p && is_strict_ancestor(x, deleted@[k as int]@));
                    }
                }
                if exists|k2: int|
                    0 <= k2 < k + 1 && is_strict_ancestor(x, (#[trigger] deleted@[k2])@) {
                    let k2 = choose|k2: int|
                        0 <= k2 < k + 1 && is_strict_ancestor(x, (#[trigger] deleted@[k2])@);
                    if k2 == k {
                        assert(x.len() < deleted@[k as int]@.len());
                        assert(x.len() < p || x.len() < p);
                        assert(p == flen);
                        assert(x.len() < p && is_strict_ancestor(x, deleted@[k as int]@));
                    }
                }
            }
        }
        k = k + 1;
    }
    // Deepest first: sort by descending slash count.
    let ghost raw_snap = raw@;
    proof {
        assert forall|x: Seq<char>|
            spec_contains_str(raw_snap, x) <==> ancestor_of_some(deleted@, x) by {
            assert(spec_contains_str(raw_snap, x) == spec_contains_str(raw@, x));
        }
        assert forall|i: int, j: int|
            0 <= i < j < raw_snap.len() implies (#[trigger] raw_snap[i]@) != (
        #[trigger] raw_snap[j]@) by {
            assert(raw_snap[i] == raw@[i]);
            assert(raw_snap[j] == raw@[j]);
        }
    }
    let mut rest = raw;
    let mut out: Vec<String> = Vec::new();
    proof {
        assert(out@.to_multiset().add(rest@.to_multiset()) =~= raw_snap.to_multiset());
    }
    while rest.len() > 0
        invariant
            raw_snap.to_multiset() == out@.to_multiset().add(rest@.to_multiset()),
            forall|i: int, j: int|
                0 <= i < j < out@.len() ==> count_char((#[trigger] out@[i])@, '/') >= count_char(
                    (#[trigger] out@[j])@,
                    '/',
                ),
        decreases rest@.len(),
    {
        let ghost pre_rest = rest@;
        let x = rest.remove(0);
        let xc = crate::text::count_char_exec(x.as_str(), '/');
        let mut pos: usize = 0;
        while pos < out.len()
            invariant
                pos <= out@.len(),
                xc == count_char(x@, '/'),
                forall|m: int|
                    0 <= m < pos ==> count_char((#[trigger] out@[m])@, '/') >= count_char(
                        x@,
                        '/',
                    ),
            ensures
                pos <= out@.len(),
                xc == count_char(x@, '/'),
                forall|m: int|
                    0 <= m < pos ==> count_char((#[trigger] out@[m])@, '/') >= count_char(
                        x@,
                        '/',
                    ),
                pos < out@.len() ==> count_char(out@[pos as int]@, '/') < count_char(x@, '/'),
            decreases out@.len() - pos,
        {
            let oc = crate::text::count_char_exec(out[pos].as_str(), '/');
            if oc < xc {
                break;
            }
            pos = pos + 1;
        }
        proof {
            assert forall|m: int| (pos as int) <= m < out@.len() implies count_char(
                x@,
                '/',
            ) >= count_char((#[trigger] out@[m])@, '/') by {
                assert(count_char(out@[pos as int]@, '/') < count_char(x@, '/'));
                if m > pos {
                    assert(count_char(out@[pos as int]@, '/') >= count_char(out@[m]@, '/'));
                }
            }
        }
        let ghost pre_out = out@;
        let ghost xv = x;
        out.insert(pos, x);
        proof {
            assert forall|i: int, j: int| 0 <= i < j < out@.len() implies count_char(
                (#[trigger] out@[i])@,
                '/',
            ) >= count_char((#[trigger] out@[j])@, '/') by {
                pre_out.insert_ensures(pos as int, xv);
            }
            assert(out@ == pre_out.insert(pos as int, xv));
            vstd::seq_lib::to_multiset_insert(pre_out, pos as int, xv);
            assert(rest@ == pre_rest.remove(0));
            vstd::seq_lib::to_multiset_remove(pre_rest, 0);
            assert(pre_rest.contains(xv)) by {
                assert(pre_rest[0] == xv);
            }
            vstd::seq_lib::to_multiset_contains(pre_rest, xv);
            assert(out@.to_multiset().add(rest@.to_multiset()) =~= pre_out.to_multiset().add(
                pre_rest.to_multiset(),
            ));
        }
    }
    proof {
        assert forall|x: String| #[trigger] out@.to_multiset().count(x)
            == raw_snap.to_multiset().count(x) by {
            vstd::seq_lib::to_multiset_contains(rest@, x);
            assert(!rest@.contains(x));
            assert(rest@.to_multiset().count(x) == 0);
        }
        assert(out@.to_multiset() =~= raw_snap.to_multiset());
        let kf = |s: String| s@;
        crate::text::lemma_distinct_key_transfer(raw_snap, out@, kf);
        assert forall|i: int, j: int|
            0 <= i < j < out@.len() implies (#[trigger] out@[i]@) != (#[trigger] out@[j]@) by {
            assert(kf(out@[i]) != kf(out@[j]));
            assert(kf(out@[i]) == out@[i]@);
            assert(kf(out@[j]) == out@[j]@);
        }
        assert forall|x: Seq<char>|
            spec_contains_str(out@, x) <==> spec_contains_str(raw_snap, x) by {
            if spec_contains_str(out@, x) {
                let w = choose|w: int| 0 <= w < out@.len() && out@[w]@ == x;
                assert(out@.contains(out@[w]));
                vstd::seq_lib::to_multiset_contains(out@, out@[w]);
                vstd::seq_lib::to_multiset_contains(raw_snap, out@[w]);
                assert(raw_snap.contains(out@[w]));
                let w2 = choose|w2: int| 0 <= w2 < raw_snap.len() && raw_snap[w2] == out@[w];
                assert(raw_snap[w2]@ == x);
            }
            if spec_contains_str(raw_snap, x) {
                let w = choose|w: int| 0 <= w < raw_snap.len() && raw_snap[w]@ == x;
                assert(raw_snap.contains(raw_snap[w]));
                vstd::seq_lib::to_multiset_contains(raw_snap, raw_snap[w]);
                vstd::seq_lib::to_multiset_contains(out@, raw_snap[w]);
                assert(out@.contains(raw_snap[w]));
                let w2 = choose|w2: int| 0 <= w2 < out@.len() && out@[w2] == raw_snap[w];
                assert(out@[w2]@ == x);
            }
        }
        assert forall|x: Seq<char>|
            spec_contains_str(out@, x) <==> ancestor_of_some(deleted@, x) by {
            assert(spec_contains_str(out@, x) <==> spec_contains_str(raw_snap, x));
            assert(spec_contains_str(raw_snap, x) <==> ancestor_of_some(deleted@, x));
        }
        assert(forall|i: int, j: int|
            0 <= i < j < out@.len() ==> (#[trigger] out@[i]@) != (#[trigger] out@[j]@));
        assert(forall|i: int, j: int|
            0 <= i < j < out@.len() ==> count_char((#[trigger] out@[i])@, '/') >= count_char(
                (#[trigger] out@[j])@,
                '/',
            ));
    }
    out
}

/// The cleanup never leaves the root: every planned directory removal
/// is a strict ancestor of a deleted file, hence a non-empty path
/// strictly below the selection root.
pub proof fn lemma_cleanup_within_root(deleted: Seq<String>, cands: Seq<String>, i: int)
    requires
        dir_plan_post(deleted, cands),
        0 <= i < cands.len(),
    ensures
        cands[i]@.len() > 0,
        exists|k: int|
            {
                &&& 0 <= k < deleted.len()
                &&& cands[i]@.len() < (#[trigger] deleted[k])@.len()
                &&& crate::text::is_prefix(cands[i]@, deleted[k]@)
            },
{
    assert(spec_contains_str(cands, cands[i]@)) by {
        assert(cands[i]@ == cands[i]@);
    }
    assert(ancestor_of_some(deleted, cands[i]@));
    let k = choose|k: int|
        0 <= k < deleted.len() && is_strict_ancestor(cands[i]@, (#[trigger] deleted[k])@);
    assert(crate::text::is_prefix(cands[i]@, deleted[k]@)) by {
        assert(deleted[k]@.take(cands[i]@.len() as int) == deleted[k]@.subrange(
            0,
            cands[i]@.len() as int,
        ));
    }
    assert({
        &&& 0 <= k < deleted.len()
        &&& cands[i]@.len() < deleted[k]@.len()
        &&& crate::text::is_prefix(cands[i]@, deleted[k]@)
    });
}

/// Items reached below a parent lie strictly after it in preorder, one
/// level deeper for immediate children.
pub proof fn lemma_key_le_parent_child(p: Seq<Seq<char>>, c: Seq<Seq<char>>, cf: bool)
    requires
        c.len() == p.len() + 1,
        c.take(p.len() as int) == p,
    ensures
        key_le(p, false, c, cf),
        !key_le(c, cf, p, false),
    decreases p.len(),
{
    if p.len() == 0 {
        assert(c.len() > 0);
    } else {
        assert(c.take(p.len() as int)[0] == c[0]);
        assert(p[0] == c[0]);
        crate::text::lemma_str_le_refl(p.first());
        assert(c.drop_first().take(p.drop_first().len() as int) =~= p.drop_first()) by {
            assert forall|w: int| 0 <= w < p.len() - 1 implies c.drop_first().take(
                p.drop_first().len() as int,
            )[w] == p.drop_first()[w] by {
                assert(c.take(p.len() as int)[w + 1] == c[w + 1]);
            }
        }
        lemma_key_le_parent_child(p.drop_first(), c.drop_first(), cf);
    }
}

/// The preorder law: every listed child of a directory has a strictly
/// greater index and a strictly greater depth than the directory.
pub proof fn lemma_children_after_parent(
    files: Seq<PreprocessedFileInfo>,
    items: Seq<SelectableItem>,
    i: int,
    u: int,
)
    requires
        tree_post(files, items),
        0 <= i < items.len(),
        items[i] is Directory,
        0 <= u < (items[i]->Directory_child_indices)@.len(),
    ensures
        i < (items[i]->Directory_child_indices)@[u] < items.len(),
        depth_of(items[(items[i]->Directory_child_indices)@[u] as int]) == depth_of(items[i]) + 1,
{
    assert(children_ok(items, i));
    let kids = (items[i]->Directory_child_indices)@;
    let c = kids[u] as int;
    assert(0 <= c < items.len());
    assert(kids.contains(kids[u])) by {
        assert(kids[u] == kids[u]);
    }
    assert(is_child(items, i, c));
    assert(comps_of(items[c]).len() == comps_of(items[i]).len() + 1);
    lemma_key_le_parent_child(comps_of(items[i]), comps_of(items[c]), is_file_item(items[c]));
    assert(!is_file_item(items[i]));
    if c == i {
        assert(false);
    }
    if c < i {
        assert(item_key_le(items[c], items[i]));
        assert(false);
    }
    lemma_item_depth(files, items, i);
    lemma_item_depth(files, items, c);
}

/// Every item sits one level deeper than its component count says.
pub proof fn lemma_item_depth(files: Seq<PreprocessedFileInfo>, items: Seq<SelectableItem>, ix: int)
    requires
        tree_post(files, items),
        0 <= ix < items.len(),
    ensures
        depth_of(items[ix]) + 1 == comps_of(items[ix]).len(),
{
    if is_file_item(items[ix]) {
        let kx = choose|kx: int|
            0 <= kx < files.len() && file_matches(items[ix], #[trigger] files[kx]);
        assert(comps_of(items[ix]) == split_slash_spec(files[kx].display_name@));
    } else {
        assert(dir_fields_ok(items[ix]));
    }
}

/// A kept path is exactly the path of some selected file item.
pub proof fn lemma_kept_membership(
    items: Seq<SelectableItem>,
    checked: Seq<bool>,
    deselected: Seq<bool>,
    n: int,
    x: Seq<char>,
)
    requires
        0 <= n <= items.len(),
    ensures
        kept_upto(items, checked, deselected, n).contains(x) <==> exists|i: int|
            {
                &&& 0 <= i < n
                &&& #[trigger] items[i] is File
                &&& sel_final(items, checked, deselected, i)
                &&& (items[i]->File_info).path@ == x
            },
    decreases n,
{
    if n > 0 {
        lemma_kept_membership(items, checked, deselected, n - 1, x);
        let prev = kept_upto(items, checked, deselected, n - 1);
        let cur = kept_upto(items, checked, deselected, n);
        if items[n - 1] is File && sel_final(items, checked, deselected, n - 1) {
            assert(cur =~= prev.push((items[n - 1]->File_info).path@));
            if cur.contains(x) {
                let w = choose|w: int| 0 <= w < cur.len() && cur[w] == x;
                if w < prev.len() {
                    assert(prev[w] == x);
                    assert(prev.contains(x));
                }
            }
            if prev.contains(x) {
                let w = choose|w: int| 0 <= w < prev.len() && prev[w] == x;
                assert(cur[w] == x);
            }
            if (items[n - 1]->File_info).path@ == x {
                assert(cur[cur.len() - 1] == x);
            }
        } else {
            assert(cur =~= prev);
        }
    }
}

/// The deselection-override law: when a directory is checked, one of its
/// descendants explicitly deselected and another left alone, the
/// deselected one is excluded from the final selection and the other
/// included.
pub proof fn lemma_deselection_wins(
    items: Seq<SelectableItem>,
    checked: Seq<bool>,
    deselected: Seq<bool>,
    jdir: int,
    iexc: int,
    ikeep: int,
)
    requires
        checked.len() == items.len(),
        deselected.len() == items.len(),
        0 <= jdir < items.len(),
        0 <= iexc < items.len(),
        0 <= ikeep < items.len(),
        items[jdir] is Directory,
        checked[jdir],
        desc(items, jdir, iexc),
        desc(items, jdir, ikeep),
        deselected[iexc],
        !checked[iexc],
        !deselected[ikeep],
    ensures
        !sel_final(items, checked, deselected, iexc),
        sel_final(items, checked, deselected, ikeep),
{
    assert(sel_final(items, checked, deselected, ikeep)) by {
        assert(0 <= jdir < items.len() && checked[jdir] && items[jdir] is Directory && desc(
            items,
            jdir,
            ikeep,
        ));
    }
}


/// Whether a relative path names a preprocessed file: its file name
/// carries the `.c2rust`, `.i` or `.ii` extension.
pub open spec fn is_preprocessed_name(x: Seq<char>) -> bool {
    crate::grouping::ext_of(crate::text::basename_of(x)) matches Some(e) && (e == "c2rust"@ || e
        == "i"@ || e == "ii"@)
}

/// Decides whether a relative path names a preprocessed file.
fn has_preprocessed_ext(rel: &str) -> (r: bool)
    ensures
        r == is_preprocessed_name(rel@),
{
    let b = crate::text::basename_exec(rel);
    let name = b.as_str();
    let len = name.unicode_len();
    let mut i: usize = len;
    while i > 0
        invariant
            i <= len,
            len == name@.len(),
            crate::grouping::last_dot(name@.take(len as int)) == crate::grouping::last_dot(
                name@.take(i as int),
            ),
            forall|j: int| i <= j < len ==> name@[j] != '.',
        ensures
            i <= len,
            len == name@.len(),
            crate::grouping::last_dot(name@.take(len as int)) == crate::grouping::last_dot(
                name@.take(i as int),
            ),
            i > 0 ==> name@[i - 1] == '.',
        decreases i,
    {
        proof {
            assert(name@.take(i as int).drop_last() =~= name@.take(i - 1));
            assert(name@.take(i as int).last() == name@[i - 1]);
        }
        let c = name.get_char(i - 1);
        if c == '.' {
            break;
        }
        i = i - 1;
    }
    proof {
        assert(name@.take(len as int) =~= name@);
    }
    if i <= 1 {
        proof {
            if i == 0 {
                assert(name@.take(0).len() == 0);
                assert(crate::grouping::last_dot(name@) == -1);
            } else {
                assert(name@.take(1).drop_last() =~= name@.take(0));
                assert(name@.take(1).last() == name@[0]);
                assert(name@[0] == '.');
                assert(crate::grouping::last_dot(name@) == 0);
            }
        }
        return false;
    }
    proof {
        assert(name@.take(i as int).last() == name@[i - 1]);
        assert(crate::grouping::last_dot(name@.take(i as int)) == i - 1);
        assert(crate::grouping::last_dot(name@) == i - 1);
    }
    let ext = name.substring_char(i, len);
    proof {
        assert(ext@ =~= name@.skip(i as int));
    }
    str_eq(ext, "c2rust") || str_eq(ext, "i") || str_eq(ext, "ii")
}

/// Whether some collected file has display name `x`.
pub open spec fn has_display(r: Seq<PreprocessedFileInfo>, x: Seq<char>) -> bool {
    exists|i: int| 0 <= i < r.len() && (#[trigger] r[i]).display_name@ == x
}

/// Collects the preprocessed files found under the selection root:
/// of the regular files at the given root-relative paths, those with a
/// preprocessed extension, sorted by display name. The display name is
/// the relative path; the full path joins it to the root.
pub fn collect_preprocessed_files(base_dir: &str, rel_paths: &Vec<String>) -> (r: Vec<
    PreprocessedFileInfo,
>)
    requires
        forall|k1: int, k2: int|
            0 <= k1 < k2 < rel_paths@.len() ==> (#[trigger] rel_paths@[k1]@) != (
            #[trigger] rel_paths@[k2]@),
    ensures
        forall|i: int, j: int|
            0 <= i < j < r@.len() ==> str_le(
                (#[trigger] r@[i]).display_name@,
                (#[trigger] r@[j]).display_name@,
            ),
        forall|i: int, j: int|
            0 <= i < j < r@.len() ==> (#[trigger] r@[i]).display_name@ != (
            #[trigger] r@[j]).display_name@,
        forall|x: Seq<char>|
            (#[trigger] has_display(r@, x)) <==> (exists|k: int|
                0 <= k < rel_paths@.len() && (#[trigger] rel_paths@[k])@ == x
                    && is_preprocessed_name(x)),
        forall|i: int|
            0 <= i < r@.len() ==> (#[trigger] r@[i]).path@ == base_dir@ + "/"@
                + r@[i].display_name@,
{
    let mut filtered: Vec<String> = Vec::new();
    let mut k: usize = 0;
    while k < rel_paths.len()
        invariant
            k <= rel_paths@.len(),
            forall|k1: int, k2: int|
                0 <= k1 < k2 < rel_paths@.len() ==> (#[trigger] rel_paths@[k1]@) != (
                #[trigger] rel_paths@[k2]@),
            forall|k1: int, k2: int|
                0 <= k1 < k2 < filtered@.len() ==> (#[trigger] filtered@[k1]@) != (
                #[trigger] filtered@[k2]@),
            forall|x: Seq<char>|
                spec_contains_str(filtered@, x) <==> (exists|k2: int|
                    0 <= k2 < k && (#[trigger] rel_paths@[k2])@ == x && is_preprocessed_name(
                        x,
                    )),
        decreases rel_paths@.len() - k,
    {
        let ghost pre = filtered@;
        if has_preprocessed_ext(rel_paths[k].as_str()) {
            proof {
                if spec_contains_str(pre, rel_paths@[k as int]@) {
                    let k2 = choose|k2: int|
                        0 <= k2 < k && (#[trigger] rel_paths@[k2])@ == rel_paths@[k as int]@
                            && is_preprocessed_name(rel_paths@[k as int]@);
                    assert(false);
                }
            }
            filtered.push(rel_paths[k].clone());
            proof {
                assert(filtered@[filtered@.len() - 1]@ == rel_paths@[k as int]@);
                assert forall|k1: int, k2: int|
                    0 <= k1 < k2 < filtered@.len() implies (#[trigger] filtered@[k1]@) != (
                #[trigger] filtered@[k2]@) by {
                    if k2 == filtered@.len() - 1 {
                        if filtered@[k1]@ == filtered@[k2]@ {
                            assert(spec_contains_str(pre, rel_paths@[k as int]@)) by {
                                assert(pre[k1]@ == rel_paths@[k as int]@);
                            }
                        }
                    }
                }
                assert forall|x: Seq<char>|
                    spec_contains_str(filtered@, x) <==> (exists|k2: int|
                        0 <= k2 < k + 1 && (#[trigger] rel_paths@[k2])@ == x
                            && is_preprocessed_name(x)) by {
                    if spec_contains_str(filtered@, x) {
                        let w = choose|w: int| 0 <= w < filtered@.len() && filtered@[w]@ == x;
                        if w < pre.len() {
                            assert(spec_contains_str(pre, x)) by {
                                assert(pre[w]@ == x);
                            }
                        } else {
                            assert(rel_paths@[k as int]@ == x && is_preprocessed_name(x));
                        }
                    }
                    if exists|k2: int|
                        0 <= k2 < k + 1 && (#[trigger] rel_paths@[k2])@ == x
                            && is_preprocessed_name(x) {
                        let k2 = choose|k2: int|
                            0 <= k2 < k + 1 && (#[trigger] rel_paths@[k2])@ == x
                                && is_preprocessed_name(x);
                        if k2 < k {
                            assert(spec_contains_str(pre, x));
                            let w = choose|w: int| 0 <= w < pre.len() && pre[w]@ == x;
                            assert(filtered@[w]@ == x);
                        } else {
                            assert(filtered@[filtered@.len() - 1]@ == x);
                        }
                    }
                }
            }
        } else {
            proof {
                assert forall|x: Seq<char>|
                    spec_contains_str(filtered@, x) <==> (exists|k2: int|
                        0 <= k2 < k + 1 && (#[trigger] rel_paths@[k2])@ == x
                            && is_preprocessed_name(x)) by {
                    if !spec_contains_str(filtered@, x) {
                        if exists|k2: int|
                            0 <= k2 < k + 1 && (#[trigger] rel_paths@[k2])@ == x
                                && is_preprocessed_name(x) {
                            let k2 = choose|k2: int|
                                0 <= k2 < k + 1 && (#[trigger] rel_paths@[k2])@ == x
                                    && is_preprocessed_name(x);
                            assert(k2 < k);
                        }
                    }
                }
            }
        }
        k = k + 1;
    }
    let sorted = crate::text::sort_strings(&filtered);
    proof {
        crate::text::lemma_distinct_key_transfer(filtered@, sorted@, |s: String| s@);
        let kf = |s: String| s@;
        assert forall|k1: int, k2: int|
            0 <= k1 < k2 < sorted@.len() implies (#[trigger] sorted@[k1]@) != (
        #[trigger] sorted@[k2]@) by {
            assert(kf(sorted@[k1]) != kf(sorted@[k2]));
            assert(kf(sorted@[k1]) == sorted@[k1]@);
            assert(kf(sorted@[k2]) == sorted@[k2]@);
        }
        assert forall|x: Seq<char>|
            spec_contains_str(sorted@, x) <==> spec_contains_str(filtered@, x) by {
            crate::text::lemma_views_contains(sorted@, x);
            crate::text::lemma_views_contains(filtered@, x);
            vstd::seq_lib::to_multiset_contains(views(sorted@), x);
            vstd::seq_lib::to_multiset_contains(views(filtered@), x);
        }
    }
    let mut out: Vec<PreprocessedFileInfo> = Vec::new();
    let mut i: usize = 0;
    while i < sorted.len()
        invariant
            i <= sorted@.len(),
            out@.len() == i,
            forall|i2: int|
                0 <= i2 < i ==> (#[trigger] out@[i2]).display_name@ == sorted@[i2]@
                    && out@[i2].path@ == base_dir@ + "/"@ + sorted@[i2]@,
        decreases sorted@.len() - i,
    {
        let mut p = String::from_str(base_dir);
        p.append("/");
        p.append(sorted[i].as_str());
        out.push(PreprocessedFileInfo { path: p, display_name: sorted[i].clone() });
        i = i + 1;
    }
    proof {
        assert forall|x: Seq<char>|
            (#[trigger] has_display(out@, x)) <==> (exists|k2: int|
                0 <= k2 < rel_paths@.len() && (#[trigger] rel_paths@[k2])@ == x
                    && is_preprocessed_name(x)) by {
            assert(has_display(out@, x) <==> spec_contains_str(sorted@, x)) by {
                if has_display(out@, x) {
                    let w = choose|w: int|
                        0 <= w < out@.len() && (#[trigger] out@[w]).display_name@ == x;
                    assert(sorted@[w]@ == x);
                }
                if spec_contains_str(sorted@, x) {
                    let w = choose|w: int| 0 <= w < sorted@.len() && sorted@[w]@ == x;
                    assert(out@[w].display_name@ == x);
                }
            }
            assert(spec_contains_str(sorted@, x) <==> spec_contains_str(filtered@, x));
            assert(spec_contains_str(filtered@, x) <==> (exists|k2: int|
                0 <= k2 < rel_paths@.len() && (#[trigger] rel_paths@[k2])@ == x
                    && is_preprocessed_name(x)));
        }
    }
    out
}

/// What the selection file holds for a given kept list: the JSON
/// rendering of the paths, a function of the paths alone.
pub uninterp spec fn json_of_string_list(v: Seq<Seq<char>>) -> Seq<char>;

/// Relies on serde_json::to_string_pretty: renders a list of strings as
/// a JSON array; the output depends on the strings alone. Serializing
/// strings into an in-memory buffer cannot fail (the writer is a byte
/// vector and string serialization reports no error), so a rendering
/// always comes back.
#[verifier::external_body]
fn json_encode_strings(v: &Vec<String>) -> (r: Option<String>)
    ensures
        r is Some,
        r matches Some(s) ==> s@ == json_of_string_list(views(v@)),
{
    match serde_json::to_string_pretty(v) {
        Ok(s) => Some(s),
        Err(_) => None,
    }
}

/// The content written to the namespaced selection file: the kept paths
/// as a JSON array. Rendering is always owed: it never fails.
pub fn selection_file_content(selected: &Vec<String>) -> (r: Option<String>)
    ensures
        r is Some,
        r matches Some(s) ==> s@ == json_of_string_list(views(selected@)),
{
    json_encode_strings(selected)
}


/// The deselection-override law at the level of the kept path list:
/// with the directory checked, the explicitly deselected file's path is
/// absent from the kept list (no other file item sharing it), and the
/// untouched descendant file's path is present.
pub proof fn lemma_deselection_wins_paths(
    items: Seq<SelectableItem>,
    checked: Seq<bool>,
    deselected: Seq<bool>,
    jdir: int,
    iexc: int,
    ikeep: int,
)
    requires
        checked.len() == items.len(),
        deselected.len() == items.len(),
        0 <= jdir < items.len(),
        0 <= iexc < items.len(),
        0 <= ikeep < items.len(),
        items[jdir] is Directory,
        checked[jdir],
        desc(items, jdir, iexc),
        desc(items, jdir, ikeep),
        items[iexc] is File,
        items[ikeep] is File,
        deselected[iexc],
        !checked[iexc],
        !deselected[ikeep],
        forall|i: int|
            0 <= i < items.len() && i != iexc && #[trigger] items[i] is File ==> (
            items[i]->File_info).path@ != (items[iexc]->File_info).path@,
    ensures
        !kept_upto(items, checked, deselected, items.len() as int).contains(
            (items[iexc]->File_info).path@,
        ),
        kept_upto(items, checked, deselected, items.len() as int).contains(
            (items[ikeep]->File_info).path@,
        ),
{
    lemma_deselection_wins(items, checked, deselected, jdir, iexc, ikeep);
    let xexc = (items[iexc]->File_info).path@;
    let xkeep = (items[ikeep]->File_info).path@;
    lemma_kept_membership(items, checked, deselected, items.len() as int, xexc);
    lemma_kept_membership(items, checked, deselected, items.len() as int, xkeep);
    if kept_upto(items, checked, deselected, items.len() as int).contains(xexc) {
        let i = choose|i: int|
            {
                &&& 0 <= i < items.len()
                &&& #[trigger] items[i] is File
                &&& sel_final(items, checked, deselected, i)
                &&& (items[i]->File_info).path@ == xexc
            };
        assert(i == iexc);
        assert(!sel_final(items, checked, deselected, iexc));
    }
    assert(kept_upto(items, checked, deselected, items.len() as int).contains(xkeep)) by {
        assert({
            &&& 0 <= ikeep < items.len()
            &&& items[ikeep] is File
            &&& sel_final(items, checked, deselected, ikeep)
            &&& (items[ikeep]->File_info).path@ == xkeep
        });
    }
}

/// Whether some item has exactly this key.
pub open spec fn key_at(s: Seq<SelectableItem>, c: Seq<Seq<char>>, f: bool) -> bool {
    exists|i: int|
        0 <= i < s.len() && comps_of(#[trigger] s[i]) == c && is_file_item(s[i]) == f
}

/// Everything observable about an item: its components, kind, depth,
/// file path and display name, and its child indices.
pub open spec fn item_abs(it: SelectableItem) -> (
    Seq<Seq<char>>,
    bool,
    int,
    Seq<char>,
    Seq<char>,
    Seq<usize>,
) {
    match it {
        SelectableItem::File { info, depth } => (
            comps_of(it),
            true,
            depth as int,
            info.path@,
            info.display_name@,
            Seq::empty(),
        ),
        SelectableItem::Directory { display_name, depth, child_indices, .. } => (
            comps_of(it),
            false,
            depth as int,
            Seq::empty(),
            display_name@,
            child_indices@,
        ),
    }
}

/// Two strictly increasing index lists with the same members are equal.
proof fn lemma_incr_same_members(x: Seq<usize>, y: Seq<usize>)
    requires
        forall|u: int, v: int| 0 <= u < v < x.len() ==> x[u] < x[v],
        forall|u: int, v: int| 0 <= u < v < y.len() ==> y[u] < y[v],
        forall|w: usize| x.contains(w) <==> y.contains(w),
    ensures
        x == y,
    decreases x.len(),
{
    if x.len() == 0 {
        if y.len() > 0 {
            assert(y.contains(y[0]));
            assert(x.contains(y[0]));
        }
        assert(x =~= y);
    } else if y.len() == 0 {
        assert(x.contains(x[0]));
        assert(y.contains(x[0]));
    } else {
        assert(x.contains(x[0]));
        assert(y.contains(x[0]));
        let j = choose|j: int| 0 <= j < y.len() && y[j] == x[0];
        assert(y.contains(y[0]));
        assert(x.contains(y[0]));
        let i = choose|i: int| 0 <= i < x.len() && x[i] == y[0];
        if j > 0 {
            assert(y[0] < y[j]);
        }
        if i > 0 {
            assert(x[0] < x[i]);
        }
        assert(x[0] == y[0]);
        assert forall|w: usize| x.drop_first().contains(w) <==> y.drop_first().contains(
            w,
        ) by {
            if x.drop_first().contains(w) {
                let u = choose|u: int|
                    0 <= u < x.drop_first().len() && x.drop_first()[u] == w;
                assert(x[u + 1] == w);
                assert(x.contains(w));
                assert(x[0] < x[u + 1]);
                assert(y.contains(w));
                let v = choose|v: int| 0 <= v < y.len() && y[v] == w;
                assert(v > 0) by {
                    if v == 0 {
                        assert(y[0] == w);
                    }
                }
                assert(y.drop_first()[v - 1] == w);
            }
            if y.drop_first().contains(w) {
                let u = choose|u: int|
                    0 <= u < y.drop_first().len() && y.drop_first()[u] == w;
                assert(y[u + 1] == w);
                assert(y.contains(w));
                assert(y[0] < y[u + 1]);
                assert(x.contains(w));
                let v = choose|v: int| 0 <= v < x.len() && x[v] == w;
                assert(v > 0) by {
                    if v == 0 {
                        assert(x[0] == w);
                    }
                }
                assert(x.drop_first()[v - 1] == w);
            }
        }
        assert forall|u: int, v: int| 0 <= u < v < x.drop_first().len() implies x.drop_first()[u]
            < x.drop_first()[v] by {
            assert(x[u + 1] < x[v + 1]);
        }
        assert forall|u: int, v: int| 0 <= u < v < y.drop_first().len() implies y.drop_first()[u]
            < y.drop_first()[v] by {
            assert(y[u + 1] < y[v + 1]);
        }
        lemma_incr_same_members(x.drop_first(), y.drop_first());
        assert(x =~= seq![x[0]] + x.drop_first());
        assert(y =~= seq![y[0]] + y.drop_first());
        assert(x =~= y);
    }
}

/// Two strictly key-sorted item lists with the same key membership have
/// the same keys, position for position.
proof fn lemma_sorted_same_keys(a: Seq<SelectableItem>, b: Seq<SelectableItem>)
    requires
        forall|i: int, j: int|
            0 <= i < j < a.len() ==> item_key_le(#[trigger] a[i], #[trigger] a[j]) && item_key(
                a[i],
            ) != item_key(a[j]),
        forall|i: int, j: int|
            0 <= i < j < b.len() ==> item_key_le(#[trigger] b[i], #[trigger] b[j]) && item_key(
                b[i],
            ) != item_key(b[j]),
        forall|i: int| 0 <= i < a.len() ==> comps_of(#[trigger] a[i]).len() > 0,
        forall|i: int| 0 <= i < b.len() ==> comps_of(#[trigger] b[i]).len() > 0,
        forall|c: Seq<Seq<char>>, f: bool| key_at(a, c, f) <==> key_at(b, c, f),
    ensures
        a.len() == b.len(),
        forall|i: int| 0 <= i < a.len() ==> item_key(#[trigger] a[i]) == item_key(b[i]),
    decreases a.len(),
{
    if a.len() == 0 {
        if b.len() > 0 {
            assert(key_at(b, comps_of(b[0]), is_file_item(b[0]))) by {
                assert(comps_of(b[0]) == comps_of(b[0]));
            }
            assert(key_at(a, comps_of(b[0]), is_file_item(b[0])));
        }
    } else if b.len() == 0 {
        assert(key_at(a, comps_of(a[0]), is_file_item(a[0]))) by {
            assert(comps_of(a[0]) == comps_of(a[0]));
        }
        assert(key_at(b, comps_of(a[0]), is_file_item(a[0])));
    } else {
        assert(key_at(a, comps_of(a[0]), is_file_item(a[0]))) by {
            assert(comps_of(a[0]) == comps_of(a[0]));
        }
        assert(key_at(b, comps_of(a[0]), is_file_item(a[0])));
        let jb = choose|j: int|
            0 <= j < b.len() && comps_of(#[trigger] b[j]) == comps_of(a[0]) && is_file_item(
                b[j],
            ) == is_file_item(a[0]);
        assert(key_at(b, comps_of(b[0]), is_file_item(b[0]))) by {
            assert(comps_of(b[0]) == comps_of(b[0]));
        }
        assert(key_at(a, comps_of(b[0]), is_file_item(b[0])));
        let ia = choose|i: int|
            0 <= i < a.len() && comps_of(#[trigger] a[i]) == comps_of(b[0]) && is_file_item(
                a[i],
            ) == is_file_item(b[0]);
        // key(b0) <= key(b[jb]) = key(a0) and key(a0) <= key(a[ia]) = key(b0)
        if jb > 0 {
            assert(item_key_le(b[0], b[jb]));
        } else {
            lemma_key_le_refl(comps_of(b[0]), is_file_item(b[0]));
        }
        if ia > 0 {
            assert(item_key_le(a[0], a[ia]));
        } else {
            lemma_key_le_refl(comps_of(a[0]), is_file_item(a[0]));
        }
        lemma_key_le_antisym(
            comps_of(a[0]),
            is_file_item(a[0]),
            comps_of(b[0]),
            is_file_item(b[0]),
        );
        assert(item_key(a[0]) == item_key(b[0]));
        // The tails cover the same keys.
        assert forall|c: Seq<Seq<char>>, f: bool|
            key_at(a.drop_first(), c, f) <==> key_at(b.drop_first(), c, f) by {
            if key_at(a.drop_first(), c, f) {
                let i = choose|i: int|
                    0 <= i < a.drop_first().len() && comps_of(#[trigger] a.drop_first()[i])
                        == c && is_file_item(a.drop_first()[i]) == f;
                assert(a[i + 1] == a.drop_first()[i]);
                assert(key_at(a, c, f)) by {
                    assert(comps_of(a[i + 1]) == c && is_file_item(a[i + 1]) == f);
                }
                assert(key_at(b, c, f));
                let j = choose|j: int|
                    0 <= j < b.len() && comps_of(#[trigger] b[j]) == c && is_file_item(b[j])
                        == f;
                assert(j > 0) by {
                    if j == 0 {
                        assert(item_key(b[0]) == (c, f));
                        assert(item_key(a[i + 1]) == (c, f));
                        assert(item_key(a[0]) != item_key(a[i + 1]));
                    }
                }
                assert(b.drop_first()[j - 1] == b[j]);
                assert(key_at(b.drop_first(), c, f)) by {
                    assert(comps_of(b.drop_first()[j - 1]) == c && is_file_item(
                        b.drop_first()[j - 1],
                    ) == f);
                }
            }
            if key_at(b.drop_first(), c, f) {
                let i = choose|i: int|
                    0 <= i < b.drop_first().len() && comps_of(#[trigger] b.drop_first()[i])
                        == c && is_file_item(b.drop_first()[i]) == f;
                assert(b[i + 1] == b.drop_first()[i]);
                assert(key_at(b, c, f)) by {
                    assert(comps_of(b[i + 1]) == c && is_file_item(b[i + 1]) == f);
                }
                assert(key_at(a, c, f));
                let j = choose|j: int|
                    0 <= j < a.len() && comps_of(#[trigger] a[j]) == c && is_file_item(a[j])
                        == f;
                assert(j > 0) by {
                    if j == 0 {
                        assert(item_key(a[0]) == (c, f));
                        assert(item_key(b[i + 1]) == (c, f));
                        assert(item_key(b[0]) != item_key(b[i + 1]));
                    }
                }
                assert(a.drop_first()[j - 1] == a[j]);
                assert(key_at(a.drop_first(), c, f)) by {
                    assert(comps_of(a.drop_first()[j - 1]) == c && is_file_item(
                        a.drop_first()[j - 1],
                    ) == f);
                }
            }
        }
        assert forall|i: int, j: int|
            0 <= i < j < a.drop_first().len() implies item_key_le(
            #[trigger] a.drop_first()[i],
            #[trigger] a.drop_first()[j],
        ) && item_key(a.drop_first()[i]) != item_key(a.drop_first()[j]) by {
            assert(a.drop_first()[i] == a[i + 1]);
            assert(a.drop_first()[j] == a[j + 1]);
        }
        assert forall|i: int, j: int|
            0 <= i < j < b.drop_first().len() implies item_key_le(
            #[trigger] b.drop_first()[i],
            #[trigger] b.drop_first()[j],
        ) && item_key(b.drop_first()[i]) != item_key(b.drop_first()[j]) by {
            assert(b.drop_first()[i] == b[i + 1]);
            assert(b.drop_first()[j] == b[j + 1]);
        }
        assert forall|i: int| 0 <= i < a.drop_first().len() implies comps_of(
            #[trigger] a.drop_first()[i],
        ).len() > 0 by {
            assert(a.drop_first()[i] == a[i + 1]);
        }
        assert forall|i: int| 0 <= i < b.drop_first().len() implies comps_of(
            #[trigger] b.drop_first()[i],
        ).len() > 0 by {
            assert(b.drop_first()[i] == b[i + 1]);
        }
        lemma_sorted_same_keys(a.drop_first(), b.drop_first());
        assert forall|i: int| 0 <= i < a.len() implies item_key(#[trigger] a[i]) == item_key(
            b[i],
        ) by {
            if i > 0 {
                assert(a[i] == a.drop_first()[i - 1]);
                assert(b[i] == b.drop_first()[i - 1]);
                assert(item_key(a.drop_first()[i - 1]) == item_key(b.drop_first()[i - 1]));
            }
        }
    }
}

/// The idempotence law: hierarchical-tree construction is a function of
/// the flat file set. Any two item lists meeting the construction
/// contract for the same files agree item for item — same kind,
/// components, depth, file data and children — so running the
/// construction twice yields identical ordering.
pub proof fn lemma_tree_deterministic(
    files: Seq<PreprocessedFileInfo>,
    items1: Seq<SelectableItem>,
    items2: Seq<SelectableItem>,
)
    requires
        forall|k1: int, k2: int|
            0 <= k1 < k2 < files.len() ==> (#[trigger] files[k1].display_name@) != (
            #[trigger] files[k2].display_name@),
        tree_post(files, items1),
        tree_post(files, items2),
    ensures
        items1.len() == items2.len(),
        forall|i: int| 0 <= i < items1.len() ==> item_abs(#[trigger] items1[i]) == item_abs(
            items2[i],
        ),
{
    // Both lists cover exactly the same keys: files and directory
    // prefixes of the input.
    assert forall|c: Seq<Seq<char>>, f: bool|
        key_at(items1, c, f) <==> key_at(items2, c, f) by {
        lemma_key_coverage(files, items1, items2, c, f);
    }
    assert forall|i: int| 0 <= i < items1.len() implies comps_of(
        #[trigger] items1[i],
    ).len() > 0 by {
        lemma_item_comps_nonempty(files, items1, i);
    }
    assert forall|i: int| 0 <= i < items2.len() implies comps_of(
        #[trigger] items2[i],
    ).len() > 0 by {
        lemma_item_comps_nonempty(files, items2, i);
    }
    lemma_sorted_same_keys(items1, items2);
    assert forall|i: int| 0 <= i < items1.len() implies item_abs(#[trigger] items1[i])
        == item_abs(items2[i]) by {
        lemma_same_key_same_item(files, items1, items2, i);
    }
}

proof fn lemma_item_comps_nonempty(
    files: Seq<PreprocessedFileInfo>,
    items: Seq<SelectableItem>,
    i: int,
)
    requires
        tree_post(files, items),
        0 <= i < items.len(),
    ensures
        comps_of(items[i]).len() > 0,
{
    if is_file_item(items[i]) {
        let kx = choose|kx: int|
            0 <= kx < files.len() && file_matches(items[i], #[trigger] files[kx]);
        crate::text::lemma_split_char_len(files[kx].display_name@, '/');
        assert(comps_of(items[i]) == split_slash_spec(files[kx].display_name@));
    } else {
        assert(dir_fields_ok(items[i]));
    }
}

/// A key occurs in a tree exactly when the input file set calls for it.
proof fn lemma_key_coverage(
    files: Seq<PreprocessedFileInfo>,
    items1: Seq<SelectableItem>,
    items2: Seq<SelectableItem>,
    c: Seq<Seq<char>>,
    f: bool,
)
    requires
        tree_post(files, items1),
        tree_post(files, items2),
    ensures
        key_at(items1, c, f) <==> key_at(items2, c, f),
{
    lemma_key_at_files(files, items1, c, f);
    lemma_key_at_files(files, items2, c, f);
}

proof fn lemma_key_at_files(
    files: Seq<PreprocessedFileInfo>,
    items: Seq<SelectableItem>,
    c: Seq<Seq<char>>,
    f: bool,
)
    requires
        tree_post(files, items),
    ensures
        key_at(items, c, f) <==> (if f {
            exists|k: int|
                0 <= k < files.len() && split_slash_spec((#[trigger] files[k]).display_name@)
                    == c
        } else {
            is_dir_prefix_of(files, c)
        }),
{
    if key_at(items, c, f) {
        let i = choose|i: int|
            0 <= i < items.len() && comps_of(#[trigger] items[i]) == c && is_file_item(items[i])
                == f;
        if f {
            let k = choose|k: int|
                0 <= k < files.len() && file_matches(items[i], #[trigger] files[k]);
            assert(comps_of(items[i]) == split_slash_spec(files[k].display_name@));
            assert(split_slash_spec(files[k].display_name@) == c);
        } else {
            assert(is_dir_prefix_of(files, comps_of(items[i])));
        }
    }
    if f {
        if exists|k: int|
            0 <= k < files.len() && split_slash_spec((#[trigger] files[k]).display_name@) == c {
            let k = choose|k: int|
                0 <= k < files.len() && split_slash_spec((#[trigger] files[k]).display_name@)
                    == c;
            assert(has_file_item(items, files[k]));
            let i = choose|i: int|
                0 <= i < items.len() && file_matches(#[trigger] items[i], files[k]);
            assert(comps_of(items[i]) == split_slash_spec(files[k].display_name@));
            assert(key_at(items, c, f)) by {
                assert(comps_of(items[i]) == c && is_file_item(items[i]) == f);
            }
        }
    } else {
        if is_dir_prefix_of(files, c) {
            let (k, p) = choose|k: int, p: int|
                {
                    &&& 0 <= k < files.len()
                    &&& 0 < p < split_slash_spec(files[k].display_name@).len()
                    &&& c == #[trigger] (split_slash_spec(files[k].display_name@).take(p))
                };
            assert(has_dir_item(items, split_slash_spec(files[k].display_name@).take(p)));
            let i = choose|i: int|
                0 <= i < items.len() && !is_file_item(#[trigger] items[i]) && comps_of(
                    items[i],
                ) == split_slash_spec(files[k].display_name@).take(p);
            assert(key_at(items, c, f)) by {
                assert(comps_of(items[i]) == c && is_file_item(items[i]) == f);
            }
        }
    }
}

/// Two directories at the same position with pointwise equal component
/// views list the same children.
proof fn lemma_same_dir_children(
    items1: Seq<SelectableItem>,
    items2: Seq<SelectableItem>,
    i: int,
)
    requires
        items1.len() == items2.len(),
        0 <= i < items1.len(),
        items1[i] is Directory,
        items2[i] is Directory,
        children_ok(items1, i),
        children_ok(items2, i),
        forall|j: int|
            0 <= j < items1.len() ==> comps_of(#[trigger] items1[j]) == comps_of(items2[j]),
    ensures
        (items1[i]->Directory_child_indices)@ == (items2[i]->Directory_child_indices)@,
{
    let kids1 = (items1[i]->Directory_child_indices)@;
    let kids2 = (items2[i]->Directory_child_indices)@;
    assert forall|w: usize| kids1.contains(w) <==> kids2.contains(w) by {
        if kids1.contains(w) {
            let u = choose|u: int| 0 <= u < kids1.len() && kids1[u] == w;
            assert(kids1[u] < items1.len());
            assert(is_child(items1, i, w as int));
            assert(comps_of(items1[w as int]) == comps_of(items2[w as int]));
            assert(is_child(items2, i, w as int));
        }
        if kids2.contains(w) {
            let u = choose|u: int| 0 <= u < kids2.len() && kids2[u] == w;
            assert(kids2[u] < items2.len());
            assert(is_child(items2, i, w as int));
            assert(comps_of(items1[w as int]) == comps_of(items2[w as int]));
            assert(is_child(items1, i, w as int));
        }
    }
    lemma_incr_same_members(kids1, kids2);
}

/// Two file items carrying the same display path carry the same input
/// file, when display names are pairwise distinct.
proof fn lemma_same_file_info(
    files: Seq<PreprocessedFileInfo>,
    a: SelectableItem,
    b: SelectableItem,
)
    requires
        forall|k1: int, k2: int|
            0 <= k1 < k2 < files.len() ==> (#[trigger] files[k1].display_name@) != (
            #[trigger] files[k2].display_name@),
        a is File,
        b is File,
        comps_of(a) == comps_of(b),
        exists|k: int| 0 <= k < files.len() && file_matches(a, #[trigger] files[k]),
        exists|k: int| 0 <= k < files.len() && file_matches(b, #[trigger] files[k]),
    ensures
        item_abs(a) == item_abs(b),
{
    let k1 = choose|k: int| 0 <= k < files.len() && file_matches(a, #[trigger] files[k]);
    let k2 = choose|k: int| 0 <= k < files.len() && file_matches(b, #[trigger] files[k]);
    assert(split_slash_spec(files[k1].display_name@) == comps_of(a));
    assert(split_slash_spec(files[k2].display_name@) == comps_of(b));
    crate::text::lemma_join_split(files[k1].display_name@, '/');
    crate::text::lemma_join_split(files[k2].display_name@, '/');
    assert(files[k1].display_name@ == files[k2].display_name@);
    assert(k1 == k2) by {
        if k1 < k2 {
            assert(files[k1].display_name@ != files[k2].display_name@);
        }
        if k2 < k1 {
            assert(files[k2].display_name@ != files[k1].display_name@);
        }
    }
    assert(item_abs(a) =~= item_abs(b));
}

/// Two directories at the same position, with the same components
/// everywhere, agree on every observable field.
proof fn lemma_same_dir_abs(
    items1: Seq<SelectableItem>,
    items2: Seq<SelectableItem>,
    i: int,
)
    requires
        items1.len() == items2.len(),
        0 <= i < items1.len(),
        items1[i] is Directory,
        items2[i] is Directory,
        dir_fields_ok(items1[i]),
        dir_fields_ok(items2[i]),
        children_ok(items1, i),
        children_ok(items2, i),
        forall|j: int|
            0 <= j < items1.len() ==> comps_of(#[trigger] items1[j]) == comps_of(items2[j]),
    ensures
        item_abs(items1[i]) == item_abs(items2[i]),
{
    lemma_same_dir_children(items1, items2, i);
    assert(items1[i]->Directory_display_name@ == items2[i]->Directory_display_name@) by {
        assert(views((items1[i]->Directory_components)@) == views(
            (items2[i]->Directory_components)@,
        ));
        assert((items1[i]->Directory_components)@.len() == (
        items2[i]->Directory_components)@.len());
        assert((items1[i]->Directory_components)@.last()@ == views(
            (items1[i]->Directory_components)@,
        ).last());
        assert((items2[i]->Directory_components)@.last()@ == views(
            (items2[i]->Directory_components)@,
        ).last());
    }
    assert(item_abs(items1[i]) =~= item_abs(items2[i]));
}

#[verifier::rlimit(100)]
proof fn lemma_same_key_same_item(
    files: Seq<PreprocessedFileInfo>,
    items1: Seq<SelectableItem>,
    items2: Seq<SelectableItem>,
    i: int,
)
    requires
        forall|k1: int, k2: int|
            0 <= k1 < k2 < files.len() ==> (#[trigger] files[k1].display_name@) != (
            #[trigger] files[k2].display_name@),
        tree_post(files, items1),
        tree_post(files, items2),
        items1.len() == items2.len(),
        0 <= i < items1.len(),
        forall|j: int| 0 <= j < items1.len() ==> item_key(#[trigger] items1[j]) == item_key(
            items2[j],
        ),
    ensures
        item_abs(items1[i]) == item_abs(items2[i]),
{
    assert(item_key(items1[i]) == item_key(items2[i]));
    assert(comps_of(items1[i]) == comps_of(items2[i]));
    assert(is_file_item(items1[i]) == is_file_item(items2[i]));
    assert forall|j: int| 0 <= j < items1.len() implies comps_of(#[trigger] items1[j])
        == comps_of(items2[j]) by {
        assert(item_key(items1[j]) == item_key(items2[j]));
    }
    if is_file_item(items1[i]) {
        lemma_same_file_info(files, items1[i], items2[i]);
    } else {
        assert(dir_fields_ok(items1[i]));
        assert(dir_fields_ok(items2[i]));
        assert(children_ok(items1, i));
        assert(children_ok(items2, i));
        lemma_same_dir_abs(items1, items2, i);
    }
}

} // verus!





