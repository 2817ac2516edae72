//! Character-level string utilities: lexicographic order, sorting,
//! splitting and joining of slash-separated paths.
use vstd::prelude::*;

verus! {

/// Lexicographic order on character sequences, comparing code points.
pub open spec fn str_le(a: Seq<char>, b: Seq<char>) -> bool
    decreases a.len(),
{
    if a.len() == 0 {
        true
    } else if b.len() == 0 {
        false
    } else if a[0] < b[0] {
        true
    } else if b[0] < a[0] {
        false
    } else {
        str_le(a.drop_first(), b.drop_first())
    }
}

/// With the first `i` characters equal, the order is decided by the tails.
proof fn lemma_str_le_skip(a: Seq<char>, b: Seq<char>, i: int)
    requires
        0 <= i <= a.len(),
        0 <= i <= b.len(),
        forall|j: int| 0 <= j < i ==> a[j] == b[j],
    ensures
        str_le(a, b) == str_le(a.skip(i), b.skip(i)),
    decreases i,
{
    if i > 0 {
        lemma_str_le_skip(a, b, i - 1);
        assert(a.skip(i - 1).drop_first() =~= a.skip(i));
        assert(b.skip(i - 1).drop_first() =~= b.skip(i));
        assert(a.skip(i - 1)[0] == b.skip(i - 1)[0]);
    } else {
        assert(a.skip(0) =~= a);
        assert(b.skip(0) =~= b);
    }
}

/// Decides `str_le` on string slices.
pub fn str_le_exec(a: &str, b: &str) -> (r: bool)
    ensures
        r == str_le(a@, b@),
{
    let alen = a.unicode_len();
    let blen = b.unicode_len();
    let mut i: usize = 0;
    loop
        invariant
            i <= alen,
            i <= blen,
            alen == a@.len(),
            blen == b@.len(),
            forall|j: int| 0 <= j < i ==> a@[j] == b@[j],
        decreases alen - i,
    {
        proof {
            lemma_str_le_skip(a@, b@, i as int);
        }
        if i == alen {
            assert(a@.skip(i as int).len() == 0);
            return true;
        }
        if i == blen {
            assert(b@.skip(i as int).len() == 0);
            assert(a@.skip(i as int).len() > 0);
            return false;
        }
        let ca = a.get_char(i);
        let cb = b.get_char(i);
        proof {
            assert(a@.skip(i as int)[0] == ca);
            assert(b@.skip(i as int)[0] == cb);
        }
        if (ca as u32) < (cb as u32) {
            return true;
        }
        if (cb as u32) < (ca as u32) {
            return false;
        }
        assert(a@[i as int] == b@[i as int]);
        i = i + 1;
    }
}

/// The lexicographic order as a function value.
pub open spec fn str_le_fn() -> spec_fn(Seq<char>, Seq<char>) -> bool {
    |a: Seq<char>, b: Seq<char>| str_le(a, b)
}

pub proof fn lemma_str_le_total()
    ensures
        vstd::relations::total_ordering(str_le_fn()),
{
    let leq = str_le_fn();
    assert forall|x: Seq<char>| #[trigger] leq(x, x) by {
        lemma_str_le_refl(x);
    }
    assert forall|x: Seq<char>, y: Seq<char>| #[trigger] leq(x, y) && #[trigger] leq(y, x)
        implies x == y by {
        lemma_str_le_antisym(x, y);
    }
    assert forall|x: Seq<char>, y: Seq<char>, z: Seq<char>|
        #[trigger] leq(x, y) && #[trigger] leq(y, z) implies leq(x, z) by {
        lemma_str_le_trans(x, y, z);
    }
    assert forall|x: Seq<char>, y: Seq<char>| #[trigger] leq(x, y) || #[trigger] leq(y, x) by {
        lemma_str_le_connected(x, y);
    }
}

pub proof fn lemma_str_le_refl(x: Seq<char>)
    ensures
        str_le(x, x),
    decreases x.len(),
{
    if x.len() > 0 {
        lemma_str_le_refl(x.drop_first());
    }
}

pub proof fn lemma_str_le_antisym(x: Seq<char>, y: Seq<char>)
    requires
        str_le(x, y),
        str_le(y, x),
    ensures
        x == y,
    decreases x.len(),
{
    if x.len() == 0 {
        assert(y.len() == 0);
        assert(x =~= y);
    } else {
        assert(y.len() > 0);
        assert(x[0] == y[0]);
        lemma_str_le_antisym(x.drop_first(), y.drop_first());
        assert(x =~= seq![x[0]] + x.drop_first());
        assert(y =~= seq![y[0]] + y.drop_first());
        assert(x =~= y);
    }
}

pub proof fn lemma_str_le_trans(x: Seq<char>, y: Seq<char>, z: Seq<char>)
    requires
        str_le(x, y),
        str_le(y, z),
    ensures
        str_le(x, z),
    decreases x.len(),
{
    if x.len() > 0 && y.len() > 0 && z.len() > 0 {
        if x[0] == y[0] && y[0] == z[0] {
            lemma_str_le_trans(x.drop_first(), y.drop_first(), z.drop_first());
        }
    }
}

pub proof fn lemma_str_le_connected(x: Seq<char>, y: Seq<char>)
    ensures
        str_le(x, y) || str_le(y, x),
    decreases x.len(),
{
    if x.len() > 0 && y.len() > 0 {
        lemma_str_le_connected(x.drop_first(), y.drop_first())
    }
}

/// Decides equality of two string slices.
pub fn str_eq(a: &str, b: &str) -> (r: bool)
    ensures
        r == (a@ == b@),
{
    let le1 = str_le_exec(a, b);
    let le2 = str_le_exec(b, a);
    proof {
        if le1 && le2 {
            lemma_str_le_antisym(a@, b@);
        }
        if a@ == b@ {
            lemma_str_le_refl(a@);
        }
    }
    le1 && le2
}

pub open spec fn is_prefix(p: Seq<char>, s: Seq<char>) -> bool {
    p.len() <= s.len() && p == s.subrange(0, p.len() as int)
}

pub open spec fn is_suffix(p: Seq<char>, s: Seq<char>) -> bool {
    p.len() <= s.len() && p == s.subrange(s.len() - p.len(), s.len() as int)
}

/// Decides whether `p` is a prefix of `s`.
pub fn starts_with_str(s: &str, p: &str) -> (r: bool)
    ensures
        r == is_prefix(p@, s@),
{
    let plen = p.unicode_len();
    let slen = s.unicode_len();
    if plen > slen {
        return false;
    }
    let mut i: usize = 0;
    while i < plen
        invariant
            i <= plen,
            plen <= slen,
            plen == p@.len(),
            slen == s@.len(),
            forall|j: int| 0 <= j < i ==> p@[j] == s@[j],
        decreases plen - i,
    {
        let cp = p.get_char(i);
        let cs = s.get_char(i);
        if (cp as u32) != (cs as u32) {
            assert(p@[i as int] != s@[i as int]);
            assert(!is_prefix(p@, s@)) by {
                if is_prefix(p@, s@) {
                    assert(p@[i as int] == s@.subrange(0, p@.len() as int)[i as int]);
                }
            }
            return false;
        }
        assert(p@[i as int] == s@[i as int]);
        i = i + 1;
    }
    assert(p@ =~= s@.subrange(0, p@.len() as int));
    true
}

/// Decides whether `p` is a suffix of `s`.
pub fn ends_with_str(s: &str, p: &str) -> (r: bool)
    ensures
        r == is_suffix(p@, s@),
{
    let plen = p.unicode_len();
    let slen = s.unicode_len();
    if plen > slen {
        return false;
    }
    let off = slen - plen;
    let mut i: usize = 0;
    while i < plen
        invariant
            i <= plen,
            off == slen - plen,
            plen == p@.len(),
            slen == s@.len(),
            plen <= slen,
            forall|j: int| 0 <= j < i ==> p@[j] == s@[off + j],
        decreases plen - i,
    {
        let cp = p.get_char(i);
        let cs = s.get_char(off + i);
        if (cp as u32) != (cs as u32) {
            assert(p@[i as int] != s@[off + i]);
            assert(!is_suffix(p@, s@)) by {
                if is_suffix(p@, s@) {
                    assert(p@[i as int] == s@.subrange(
                        s@.len() - p@.len(),
                        s@.len() as int,
                    )[i as int]);
                }
            }
            return false;
        }
        assert(p@[i as int] == s@[off + i]);
        i = i + 1;
    }
    assert(p@ =~= s@.subrange(s@.len() - p@.len(), s@.len() as int));
    true
}

/// Whether some element of `v` has the character content `x`.
pub open spec fn spec_contains_str(v: Seq<String>, x: Seq<char>) -> bool {
    exists|i: int| 0 <= i < v.len() && v[i]@ == x
}

/// Decides whether `v` holds a string equal to `x`.
pub fn contains_str(v: &Vec<String>, x: &str) -> (r: bool)
    ensures
        r == spec_contains_str(v@, x@),
{
    let mut i: usize = 0;
    while i < v.len()
        invariant
            i <= v@.len(),
            forall|j: int| 0 <= j < i ==> v@[j]@ != x@,
        decreases v@.len() - i,
    {
        if str_eq(v[i].as_str(), x) {
            return true;
        }
        i = i + 1;
    }
    false
}

/// A pushed element is held exactly when it was already there or is the
/// new one.
pub proof fn lemma_seq_push_contains<T>(s: Seq<T>, x: T, y: T)
    ensures
        s.push(x).contains(y) <==> (s.contains(y) || x == y),
{
    if s.push(x).contains(y) {
        let w = choose|w: int| 0 <= w < s.push(x).len() && s.push(x)[w] == y;
        if w < s.len() {
            assert(s[w] == y);
        }
    }
    if s.contains(y) {
        let w = choose|w: int| 0 <= w < s.len() && s[w] == y;
        assert(s.push(x)[w] == y);
    }
    if x == y {
        assert(s.push(x)[s.len() as int] == y);
    }
}

/// `s` with every later duplicate dropped: the first occurrence of each
/// value is kept, in order.
pub open spec fn dedup_keep_first<T>(s: Seq<T>) -> Seq<T>
    decreases s.len(),
{
    if s.len() == 0 {
        Seq::empty()
    } else {
        let prev = dedup_keep_first(s.drop_last());
        if prev.contains(s.last()) {
            prev
        } else {
            prev.push(s.last())
        }
    }
}

/// Deduplication keeps exactly the values of the input.
pub proof fn lemma_dedup_keep_first_membership<T>(s: Seq<T>)
    ensures
        forall|x: T| dedup_keep_first(s).contains(x) <==> s.contains(x),
    decreases s.len(),
{
    if s.len() > 0 {
        let pre = s.drop_last();
        let prev = dedup_keep_first(pre);
        lemma_dedup_keep_first_membership(pre);
        assert forall|x: T| dedup_keep_first(s).contains(x) <==> s.contains(x) by {
            lemma_seq_push_contains(prev, s.last(), x);
            lemma_seq_push_contains(pre, s.last(), x);
            assert(pre.push(s.last()) =~= s);
            if prev.contains(s.last()) {
                assert(dedup_keep_first(s) == prev);
            } else {
                assert(dedup_keep_first(s) == prev.push(s.last()));
            }
        }
    }
}

/// Deduplication leaves no two equal elements.
pub proof fn lemma_dedup_keep_first_distinct<T>(s: Seq<T>)
    ensures
        forall|i: int, j: int|
            0 <= i < j < dedup_keep_first(s).len() ==> #[trigger] dedup_keep_first(s)[i]
                != #[trigger] dedup_keep_first(s)[j],
    decreases s.len(),
{
    if s.len() > 0 {
        let pre = s.drop_last();
        let prev = dedup_keep_first(pre);
        lemma_dedup_keep_first_distinct(pre);
        if !prev.contains(s.last()) {
            assert forall|i: int, j: int|
                0 <= i < j < dedup_keep_first(s).len() implies #[trigger] dedup_keep_first(
                s,
            )[i] != #[trigger] dedup_keep_first(s)[j] by {
                if j == dedup_keep_first(s).len() - 1 {
                    assert(dedup_keep_first(s)[i] == prev[i]);
                    assert(prev.contains(prev[i])) by {
                        assert(prev[i] == prev[i]);
                    }
                } else {
                    assert(dedup_keep_first(s)[i] == prev[i]);
                    assert(dedup_keep_first(s)[j] == prev[j]);
                }
            }
        }
    }
}

/// Deduplication keeps a sorted sequence sorted: it only drops elements.
pub proof fn lemma_dedup_keep_first_sorted<T>(s: Seq<T>, leq: spec_fn(T, T) -> bool)
    requires
        vstd::relations::sorted_by(s, leq),
    ensures
        vstd::relations::sorted_by(dedup_keep_first(s), leq),
    decreases s.len(),
{
    if s.len() > 0 {
        let pre = s.drop_last();
        let prev = dedup_keep_first(pre);
        assert forall|i: int, j: int| 0 <= i < j < pre.len() implies #[trigger] leq(
            pre[i],
            pre[j],
        ) by {
            assert(leq(s[i], s[j]));
        }
        lemma_dedup_keep_first_sorted(pre, leq);
        lemma_dedup_keep_first_membership(pre);
        if !prev.contains(s.last()) {
            assert forall|i: int, j: int|
                0 <= i < j < dedup_keep_first(s).len() implies #[trigger] leq(
                dedup_keep_first(s)[i],
                dedup_keep_first(s)[j],
            ) by {
                if j == dedup_keep_first(s).len() - 1 {
                    assert(dedup_keep_first(s)[i] == prev[i]);
                    assert(prev.contains(prev[i])) by {
                        assert(prev[i] == prev[i]);
                    }
                    assert(pre.contains(prev[i]));
                    let w = choose|w: int| 0 <= w < pre.len() && pre[w] == prev[i];
                    assert(leq(s[w], s.last()));
                } else {
                    assert(dedup_keep_first(s)[i] == prev[i]);
                    assert(dedup_keep_first(s)[j] == prev[j]);
                }
            }
        }
    }
}

/// A duplicate-free sequence counts every value at most once.
pub proof fn lemma_distinct_count_le_one<T>(s: Seq<T>, x: T)
    requires
        forall|i: int, j: int| 0 <= i < j < s.len() ==> #[trigger] s[i] != #[trigger] s[j],
    ensures
        s.to_multiset().count(x) <= 1,
{
    if s.to_multiset().count(x) >= 2 {
        vstd::seq_lib::to_multiset_contains(s, x);
        assert(s.contains(x));
        let i1 = choose|k: int| 0 <= k < s.len() && s[k] == x;
        vstd::seq_lib::to_multiset_remove(s, i1);
        assert(s.remove(i1).to_multiset().count(x) > 0);
        vstd::seq_lib::to_multiset_contains(s.remove(i1), x);
        assert(s.remove(i1).contains(x));
        let i2 = choose|k: int| 0 <= k < s.remove(i1).len() && s.remove(i1)[k] == x;
        if i2 < i1 {
            assert(s[i2] == x);
            assert(s[i2] != s[i1]);
        } else {
            assert(s[i2 + 1] == x);
            assert(s[i1] != s[i2 + 1]);
        }
    }
}

/// Two duplicate-free sequences holding the same values hold the same
/// multiset.
pub proof fn lemma_distinct_same_set_multiset<T>(a: Seq<T>, b: Seq<T>)
    requires
        forall|i: int, j: int| 0 <= i < j < a.len() ==> #[trigger] a[i] != #[trigger] a[j],
        forall|i: int, j: int| 0 <= i < j < b.len() ==> #[trigger] b[i] != #[trigger] b[j],
        forall|x: T| a.contains(x) <==> b.contains(x),
    ensures
        a.to_multiset() == b.to_multiset(),
{
    assert forall|x: T| #[trigger] a.to_multiset().count(x) == b.to_multiset().count(x) by {
        lemma_distinct_count_le_one(a, x);
        lemma_distinct_count_le_one(b, x);
        vstd::seq_lib::to_multiset_contains(a, x);
        vstd::seq_lib::to_multiset_contains(b, x);
    }
    assert(a.to_multiset() =~= b.to_multiset());
}

/// If two sequences hold the same multiset and the first has pairwise
/// distinct keys, so has the second.
pub proof fn lemma_distinct_key_transfer<T, K>(a: Seq<T>, b: Seq<T>, key: spec_fn(T) -> K)
    requires
        a.to_multiset() == b.to_multiset(),
        forall|i: int, j: int| 0 <= i < j < a.len() ==> key(a[i]) != key(a[j]),
    ensures
        forall|i: int, j: int| 0 <= i < j < b.len() ==> key(b[i]) != key(b[j]),
{
    assert forall|i: int, j: int| 0 <= i < j < b.len() implies key(b[i]) != key(b[j]) by {
        if key(b[i]) == key(b[j]) {
            if b[i] == b[j] {
                vstd::seq_lib::to_multiset_remove(b, j);
                assert(b.remove(j)[i] == b[i]);
                assert(b.remove(j).contains(b[i])) by {
                    assert(b.remove(j)[i] == b[i]);
                }
                vstd::seq_lib::to_multiset_contains(b.remove(j), b[i]);
                assert(b.to_multiset().count(b[i]) >= 2);
                assert(a.to_multiset().count(b[i]) >= 2);
                vstd::seq_lib::to_multiset_contains(a, b[i]);
                let i1 = choose|k: int| 0 <= k < a.len() && a[k] == b[i];
                vstd::seq_lib::to_multiset_remove(a, i1);
                assert(a.remove(i1).to_multiset().count(b[i]) > 0);
                vstd::seq_lib::to_multiset_contains(a.remove(i1), b[i]);
                let i2 = choose|k: int| 0 <= k < a.remove(i1).len() && a.remove(i1)[k] == b[i];
                if i2 < i1 {
                    assert(a[i2] == b[i]);
                    assert(key(a[i2]) == key(a[i1]));
                } else {
                    assert(a[i2 + 1] == b[i]);
                    assert(key(a[i1]) == key(a[i2 + 1]));
                }
            } else {
                assert(b.contains(b[i]));
                assert(b.contains(b[j]));
                vstd::seq_lib::to_multiset_contains(b, b[i]);
                vstd::seq_lib::to_multiset_contains(b, b[j]);
                vstd::seq_lib::to_multiset_contains(a, b[i]);
                vstd::seq_lib::to_multiset_contains(a, b[j]);
                let i1 = choose|k: int| 0 <= k < a.len() && a[k] == b[i];
                let i2 = choose|k: int| 0 <= k < a.len() && a[k] == b[j];
                assert(i1 != i2);
                assert(key(a[i1]) == key(a[i2]));
            }
        }
    }
}

/// A string sequence holds content `x` exactly when its view sequence does.
pub proof fn lemma_views_contains(v: Seq<String>, x: Seq<char>)
    ensures
        spec_contains_str(v, x) <==> views(v).contains(x),
{
    if spec_contains_str(v, x) {
        let i = choose|i: int| 0 <= i < v.len() && v[i]@ == x;
        assert(views(v)[i] == x);
    }
    if views(v).contains(x) {
        let i = choose|i: int| 0 <= i < views(v).len() && views(v)[i] == x;
        assert(v[i]@ == x);
    }
}

/// Copies a string vector, value for value.
pub fn clone_strings(v: &Vec<String>) -> (r: Vec<String>)
    ensures
        r@ == v@,
{
    let mut out: Vec<String> = Vec::new();
    let mut i: usize = 0;
    while i < v.len()
        invariant
            i <= v@.len(),
            out@ == v@.subrange(0, i as int),
        decreases v@.len() - i,
    {
        out.push(v[i].clone());
        proof {
            assert(out@ =~= v@.subrange(0, i + 1));
        }
        i = i + 1;
    }
    proof {
        assert(v@.subrange(0, i as int) =~= v@);
    }
    out
}

pub open spec fn strings_sorted(v: Seq<String>) -> bool {
    forall|i: int, j: int| 0 <= i < j < v.len() ==> str_le(#[trigger] v[i]@, #[trigger] v[j]@)
}

/// The character contents of a string sequence.
pub open spec fn views(s: Seq<String>) -> Seq<Seq<char>> {
    s.map_values(|x: String| x@)
}

/// Sorts the strings into lexicographic order, keeping the multiset of values.
pub fn sort_strings(v: &Vec<String>) -> (r: Vec<String>)
    ensures
        strings_sorted(r@),
        r@.to_multiset() == v@.to_multiset(),
        views(r@).to_multiset() == views(v@).to_multiset(),
{
    broadcast use vstd::seq_lib::group_to_multiset_ensures;

    let mut out: Vec<String> = Vec::new();
    let mut i: usize = 0;
    proof {
        assert(v@.subrange(0, 0) =~= Seq::<String>::empty());
        assert(out@.to_multiset() =~= v@.subrange(0, 0).to_multiset());
        assert(views(out@) =~= views(v@.subrange(0, 0)));
    }
    while i < v.len()
        invariant
            i <= v@.len(),
            strings_sorted(out@),
            out@.to_multiset() == v@.subrange(0, i as int).to_multiset(),
            views(out@).to_multiset() == views(v@.subrange(0, i as int)).to_multiset(),
        decreases v@.len() - i,
    {
        let x = v[i].clone();
        let mut pos: usize = 0;
        while pos < out.len()
            invariant
                pos <= out@.len(),
                forall|k: int| 0 <= k < pos ==> str_le(#[trigger] out@[k]@, x@),
            ensures
                pos <= out@.len(),
                forall|k: int| 0 <= k < pos ==> str_le(#[trigger] out@[k]@, x@),
                pos < out@.len() ==> str_le(x@, out@[pos as int]@),
            decreases out@.len() - pos,
        {
            if !str_le_exec(out[pos].as_str(), x.as_str()) {
                proof {
                    lemma_str_le_connected(out@[pos as int]@, x@);
                }
                break;
            }
            pos = pos + 1;
        }
        proof {
            assert forall|k: int| (pos as int) <= k < out@.len() implies str_le(
                x@,
                #[trigger] out@[k]@,
            ) by {
                assert(str_le(x@, out@[pos as int]@));
                if k > pos {
                    assert(str_le(out@[pos as int]@, out@[k]@));
                    lemma_str_le_trans(x@, out@[pos as int]@, out@[k]@);
                }
            }
        }
        let ghost old_out = out@;
        out.insert(pos, x);
        proof {
            assert forall|a: int, b: int| 0 <= a < b < out@.len() implies str_le(
                #[trigger] out@[a]@,
                #[trigger] out@[b]@,
            ) by {
                old_out.insert_ensures(pos as int, x);
            }
            assert(out@ == old_out.insert(pos as int, x));
            vstd::seq_lib::to_multiset_insert(old_out, pos as int, x);
            vstd::seq_lib::to_multiset_build(v@.subrange(0, i as int), v@[i as int]);
            assert(v@.subrange(0, i + 1) =~= v@.subrange(0, i as int).push(v@[i as int]));
            assert(views(out@) =~= views(old_out).insert(pos as int, x@));
            vstd::seq_lib::to_multiset_insert(views(old_out), pos as int, x@);
            vstd::seq_lib::to_multiset_build(views(v@.subrange(0, i as int)), v@[i as int]@);
            assert(views(v@.subrange(0, i + 1)) =~= views(v@.subrange(0, i as int)).push(
                v@[i as int]@,
            ));
        }
        i = i + 1;
    }
    proof {
        assert(v@.subrange(0, i as int) =~= v@);
    }
    out
}

/// Removes duplicates from a sorted string list, keeping one of each value.
pub fn dedup_sorted(v: &Vec<String>) -> (r: Vec<String>)
    requires
        strings_sorted(v@),
    ensures
        strings_sorted(r@),
        forall|i: int, j: int| 0 <= i < j < r@.len() ==> (#[trigger] r@[i]@) != (#[trigger] r@[j]@),
        forall|x: Seq<char>| spec_contains_str(r@, x) <==> spec_contains_str(v@, x),
{
    let mut out: Vec<String> = Vec::new();
    let mut i: usize = 0;
    while i < v.len()
        invariant
            i <= v@.len(),
            strings_sorted(v@),
            strings_sorted(out@),
            forall|a: int, b: int|
                0 <= a < b < out@.len() ==> (#[trigger] out@[a]@) != (#[trigger] out@[b]@),
            forall|a: int|
                0 <= a < out@.len() ==> (exists|j: int|
                    0 <= j < i && v@[j]@ == #[trigger] out@[a]@),
            forall|j: int| 0 <= j < i ==> spec_contains_str(out@, #[trigger] v@[j]@),
            out@.len() > 0 ==> out@.last()@ == v@[i - 1]@,
        decreases v@.len() - i,
    {
        let ghost old_out = out@;
        let keep: bool = if out.len() == 0 {
            true
        } else {
            !str_eq(out[out.len() - 1].as_str(), v[i].as_str())
        };
        if keep {
            proof {
                assert forall|a: int| 0 <= a < out@.len() implies (#[trigger] out@[a]@)
                    != v@[i as int]@ by {
                    if out@[a]@ == v@[i as int]@ {
                        let lst = out@.last()@;
                        if a < out@.len() - 1 {
                            assert(str_le(out@[a]@, lst));
                        } else {
                            lemma_str_le_refl(lst);
                        }
                        assert(lst == v@[(i - 1) as int]@);
                        assert(str_le(lst, v@[i as int]@));
                        lemma_str_le_antisym(lst, v@[i as int]@);
                    }
                }
            }
            let x = v[i].clone();
            out.push(x);
            proof {
                assert forall|a: int, b: int| 0 <= a < b < out@.len() implies str_le(
                    #[trigger] out@[a]@,
                    #[trigger] out@[b]@,
                ) by {
                    if b == out@.len() - 1 && a < out@.len() - 1 {
                        let j = choose|j: int| 0 <= j < i && v@[j]@ == out@[a]@;
                        assert(str_le(v@[j]@, v@[i as int]@));
                    } else if b == out@.len() - 1 {
                        lemma_str_le_refl(out@[a]@);
                    }
                }
                assert forall|j: int| 0 <= j <= i implies spec_contains_str(
                    out@,
                    #[trigger] v@[j]@,
                ) by {
                    if j < i {
                        let a = choose|a: int|
                            0 <= a < old_out.len() && old_out[a]@ == v@[j]@;
                        assert(out@[a]@ == v@[j]@);
                    } else {
                        assert(out@[out@.len() - 1]@ == v@[j]@);
                    }
                }
            }
        } else {
            proof {
                assert(out@.last()@ == v@[i as int]@);
                assert forall|j: int| 0 <= j <= i implies spec_contains_str(
                    out@,
                    #[trigger] v@[j]@,
                ) by {
                    if j < i {
                    } else {
                        assert(out@[out@.len() - 1]@ == v@[j]@);
                    }
                }
            }
        }
        i = i + 1;
    }
    proof {
        assert forall|x: Seq<char>| spec_contains_str(out@, x) implies spec_contains_str(
            v@,
            x,
        ) by {
            let a = choose|a: int| 0 <= a < out@.len() && out@[a]@ == x;
            let j = choose|j: int| 0 <= j < i && v@[j]@ == out@[a]@;
            assert(v@[j]@ == x);
        }
    }
    out
}

/// The pieces of `s` between occurrences of `sep`; an empty string yields
/// one empty piece, and a separator at either end yields an empty piece
/// there.
pub open spec fn split_char_spec(s: Seq<char>, sep: char) -> Seq<Seq<char>>
    decreases s.len(),
{
    if s.len() == 0 {
        seq![Seq::<char>::empty()]
    } else if s.last() == sep {
        split_char_spec(s.drop_last(), sep).push(Seq::<char>::empty())
    } else {
        let r = split_char_spec(s.drop_last(), sep);
        r.update(r.len() - 1, r.last().push(s.last()))
    }
}

pub proof fn lemma_split_char_len(s: Seq<char>, sep: char)
    ensures
        split_char_spec(s, sep).len() >= 1,
    decreases s.len(),
{
    if s.len() > 0 {
        lemma_split_char_len(s.drop_last(), sep);
    }
}

/// Splits `s` at every occurrence of `sep`.
pub fn split_char(s: &str, sep: char) -> (r: Vec<String>)
    ensures
        r@.len() == split_char_spec(s@, sep).len(),
        forall|i: int| 0 <= i < r@.len() ==> (#[trigger] r@[i]@) == split_char_spec(s@, sep)[i],
{
    let len = s.unicode_len();
    let mut pieces: Vec<String> = Vec::new();
    let mut cur: String = String::new();
    let mut i: usize = 0;
    proof {
        assert(s@.take(0) =~= Seq::<char>::empty());
    }
    while i < len
        invariant
            i <= len,
            len == s@.len(),
            split_char_spec(s@.take(i as int), sep).len() == pieces@.len() + 1,
            forall|j: int|
                0 <= j < pieces@.len() ==> (#[trigger] pieces@[j]@) == split_char_spec(
                    s@.take(i as int),
                    sep,
                )[j],
            cur@ == split_char_spec(s@.take(i as int), sep).last(),
        decreases len - i,
    {
        let ghost pre = s@.take(i as int);
        proof {
            assert(s@.take(i + 1).drop_last() =~= pre);
            assert(s@.take(i + 1).last() == s@[i as int]);
            lemma_split_char_len(pre, sep);
        }
        let c = s.get_char(i);
        if c == sep {
            pieces.push(cur);
            cur = String::new();
        } else {
            let piece = s.substring_char(i, i + 1);
            proof {
                assert(piece@ =~= seq![s@[i as int]]);
                assert(cur@ + piece@ =~= cur@.push(s@[i as int]));
            }
            cur.append(piece);
        }
        i = i + 1;
    }
    proof {
        assert(s@.take(i as int) =~= s@);
        lemma_split_char_len(s@, sep);
    }
    pieces.push(cur);
    pieces
}

/// The pieces of a path between `/` separators.
pub open spec fn split_slash_spec(s: Seq<char>) -> Seq<Seq<char>> {
    split_char_spec(s, '/')
}

/// Splits a path on `/` into its pieces.
pub fn split_slash(s: &str) -> (r: Vec<String>)
    ensures
        r@.len() == split_slash_spec(s@).len(),
        forall|i: int| 0 <= i < r@.len() ==> (#[trigger] r@[i]@) == split_slash_spec(s@)[i],
{
    split_char(s, '/')
}

/// The pieces joined back with the separator between neighbours.
pub open spec fn join_char_spec(ps: Seq<Seq<char>>, c: char) -> Seq<char>
    decreases ps.len(),
{
    if ps.len() == 0 {
        Seq::empty()
    } else if ps.len() == 1 {
        ps[0]
    } else {
        join_char_spec(ps.drop_last(), c).push(c) + ps.last()
    }
}

/// Joining undoes splitting, so splitting is injective.
pub proof fn lemma_join_split(s: Seq<char>, c: char)
    ensures
        join_char_spec(split_char_spec(s, c), c) == s,
    decreases s.len(),
{
    if s.len() == 0 {
    } else {
        let pre = s.drop_last();
        lemma_join_split(pre, c);
        lemma_split_char_len(pre, c);
        let sp = split_char_spec(pre, c);
        if s.last() == c {
            assert(split_char_spec(s, c) == sp.push(Seq::<char>::empty()));
            assert(sp.push(Seq::<char>::empty()).drop_last() =~= sp);
            assert(join_char_spec(sp.push(Seq::<char>::empty()), c) =~= join_char_spec(
                sp,
                c,
            ).push(c) + Seq::<char>::empty());
            assert(join_char_spec(sp, c).push(c) + Seq::<char>::empty() =~= pre.push(c));
            assert(pre.push(c) =~= s);
        } else {
            let up = sp.update(sp.len() - 1, sp.last().push(s.last()));
            assert(split_char_spec(s, c) == up);
            if sp.len() == 1 {
                assert(join_char_spec(up, c) == up[0]);
                assert(up[0] == sp[0].push(s.last()));
                assert(join_char_spec(sp, c) == sp[0]);
                assert(sp[0].push(s.last()) =~= pre.push(s.last()));
                assert(pre.push(s.last()) =~= s);
            } else {
                assert(up.drop_last() =~= sp.drop_last());
                assert(up.last() == sp.last().push(s.last()));
                assert(join_char_spec(up, c) == join_char_spec(sp.drop_last(), c).push(c)
                    + sp.last().push(s.last()));
                assert(join_char_spec(sp, c) == join_char_spec(sp.drop_last(), c).push(c)
                    + sp.last());
                assert(join_char_spec(sp.drop_last(), c).push(c) + sp.last().push(s.last())
                    =~= (join_char_spec(sp.drop_last(), c).push(c) + sp.last()).push(s.last()));
                assert(pre.push(s.last()) =~= s);
            }
        }
    }
}

/// The last `/`-separated piece of a path.
pub open spec fn basename_of(s: Seq<char>) -> Seq<char> {
    split_slash_spec(s).last()
}

/// Extracts the basename of a path string.
pub fn basename_exec(s: &str) -> (r: String)
    ensures
        r@ == basename_of(s@),
{
    let parts = split_slash(s);
    proof {
        lemma_split_char_len(s@, '/');
    }
    let n = parts.len();
    parts[n - 1].clone()
}

/// How many times `c` occurs in `s`.
pub open spec fn count_char(s: Seq<char>, c: char) -> nat
    decreases s.len(),
{
    if s.len() == 0 {
        0
    } else {
        count_char(s.drop_last(), c) + (if s.last() == c {
            1nat
        } else {
            0nat
        })
    }
}

/// Counts the occurrences of `c` in `s`.
pub fn count_char_exec(s: &str, c: char) -> (r: usize)
    ensures
        r == count_char(s@, c),
{
    let len = s.unicode_len();
    let mut n: usize = 0;
    let mut i: usize = 0;
    proof {
        assert(s@.take(0) =~= Seq::<char>::empty());
    }
    while i < len
        invariant
            i <= len,
            len == s@.len(),
            n <= i,
            n == count_char(s@.take(i as int), c),
        decreases len - i,
    {
        proof {
            assert(s@.take(i + 1).drop_last() =~= s@.take(i as int));
            assert(s@.take(i + 1).last() == s@[i as int]);
        }
        let ch = s.get_char(i);
        if ch == c {
            n = n + 1;
        }
        i = i + 1;
    }
    proof {
        assert(s@.take(i as int) =~= s@);
    }
    n
}

pub open spec fn is_space(c: char) -> bool {
    c == ' ' || c == '\t' || c == '\n' || c == '\r'
}

/// `s` with surrounding ASCII whitespace removed: the subrange from the
/// first non-space character to the last one.
pub open spec fn trim_spec(s: Seq<char>) -> Seq<char>
    decreases s.len(),
{
    if s.len() == 0 {
        s
    } else if is_space(s[0]) {
        trim_spec(s.drop_first())
    } else if is_space(s.last()) {
        trim_spec(s.drop_last())
    } else {
        s
    }
}

proof fn lemma_trim_subrange(s: Seq<char>, a: int, b: int)
    requires
        0 <= a <= b <= s.len(),
        forall|j: int| 0 <= j < a ==> is_space(s[j]),
        forall|j: int| b <= j < s.len() ==> is_space(s[j]),
        a < b ==> !is_space(s[a]),
        a < b ==> !is_space(s[b - 1]),
        a == b ==> a == s.len() || b == 0,
    ensures
        trim_spec(s) == s.subrange(a, b),
    decreases s.len(),
{
    if s.len() == 0 {
        assert(s.subrange(a, b) =~= s);
    } else if a > 0 {
        assert(is_space(s[0]));
        lemma_trim_subrange(s.drop_first(), a - 1, b - 1);
        assert(s.drop_first().subrange(a - 1, b - 1) =~= s.subrange(a, b));
    } else if b < s.len() {
        assert(is_space(s.last()));
        if a == b {
            assert(b == 0);
            assert(is_space(s[0]));
            lemma_trim_subrange(s.drop_first(), 0, 0);
            assert(s.drop_first().subrange(0, 0) =~= s.subrange(a, b));
        } else {
            lemma_trim_subrange(s.drop_last(), a, b);
            assert(s.drop_last().subrange(a, b) =~= s.subrange(a, b));
        }
    } else {
        assert(a == 0 && b == s.len());
        assert(s.subrange(0, s.len() as int) =~= s);
    }
}

/// Removes surrounding ASCII whitespace.
pub fn trim_exec(s: &str) -> (r: String)
    ensures
        r@ == trim_spec(s@),
{
    let len = s.unicode_len();
    let mut a: usize = 0;
    while a < len
        invariant
            a <= len,
            len == s@.len(),
            forall|j: int| 0 <= j < a ==> is_space(s@[j]),
        ensures
            a <= len,
            forall|j: int| 0 <= j < a ==> is_space(s@[j]),
            a < len ==> !is_space(s@[a as int]),
        decreases len - a,
    {
        let c = s.get_char(a);
        if !(c == ' ' || c == '\t' || c == '\n' || c == '\r') {
            break;
        }
        a = a + 1;
    }
    if a == len {
        proof {
            lemma_trim_subrange(s@, 0, 0);
            assert(s@.subrange(0, 0) =~= Seq::<char>::empty());
        }
        return String::new();
    }
    let mut b: usize = len;
    while b > a
        invariant
            a <= b <= len,
            len == s@.len(),
            a < len,
            !is_space(s@[a as int]),
            forall|j: int| b <= j < len ==> is_space(s@[j]),
        ensures
            a <= b <= len,
            forall|j: int| b <= j < len ==> is_space(s@[j]),
            b > a ==> !is_space(s@[b - 1]),
        decreases b,
    {
        let c = s.get_char(b - 1);
        if !(c == ' ' || c == '\t' || c == '\n' || c == '\r') {
            break;
        }
        b = b - 1;
    }
    assert(b > a);
    proof {
        lemma_trim_subrange(s@, a as int, b as int);
    }
    let piece = s.substring_char(a, b);
    String::from_str(piece)
}

pub open spec fn strip_cr(l: Seq<char>) -> Seq<char> {
    if l.len() > 0 && l.last() == '\r' {
        l.drop_last()
    } else {
        l
    }
}

/// The lines of `s`: pieces between `\n` separators, a trailing `\r`
/// removed from each, and no final empty piece after a terminating
/// newline.
pub open spec fn split_lines_spec(s: Seq<char>) -> Seq<Seq<char>> {
    if s.len() == 0 {
        Seq::empty()
    } else {
        let raw = split_char_spec(s, '\n');
        let trimmed = if raw.last() == Seq::<char>::empty() {
            raw.drop_last()
        } else {
            raw
        };
        trimmed.map_values(|l: Seq<char>| strip_cr(l))
    }
}

/// Splits text into lines.
pub fn split_lines(s: &str) -> (r: Vec<String>)
    ensures
        r@.len() == split_lines_spec(s@).len(),
        forall|i: int| 0 <= i < r@.len() ==> (#[trigger] r@[i]@) == split_lines_spec(s@)[i],
{
    if s.unicode_len() == 0 {
        let r: Vec<String> = Vec::new();
        return r;
    }
    let mut pieces = split_char(s, '\n');
    proof {
        lemma_split_char_len(s@, '\n');
    }
    let plen = pieces.len();
    if pieces[plen - 1].as_str().unicode_len() == 0 {
        proof {
            assert(pieces@[plen - 1]@ =~= Seq::<char>::empty());
            assert(split_char_spec(s@, '\n').last() == Seq::<char>::empty());
        }
        let _popped = pieces.pop();
    } else {
        proof {
            assert(split_char_spec(s@, '\n').last() != Seq::<char>::empty());
        }
    }
    let ghost trimmed = split_lines_spec(s@);
    proof {
        assert(pieces@.len() == trimmed.len());
        assert forall|i: int| 0 <= i < pieces@.len() implies strip_cr(#[trigger] pieces@[i]@)
            == trimmed[i] by {
            if split_char_spec(s@, '\n').last() == Seq::<char>::empty() {
                assert(pieces@[i]@ == split_char_spec(s@, '\n').drop_last()[i]);
            } else {
                assert(pieces@[i]@ == split_char_spec(s@, '\n')[i]);
            }
        }
    }
    let mut out: Vec<String> = Vec::new();
    let mut i: usize = 0;
    while i < pieces.len()
        invariant
            i <= pieces@.len(),
            pieces@.len() == trimmed.len(),
            forall|j: int|
                0 <= j < pieces@.len() ==> strip_cr(#[trigger] pieces@[j]@) == trimmed[j],
            out@.len() == i,
            forall|j: int| 0 <= j < i ==> (#[trigger] out@[j]@) == trimmed[j],
        decreases pieces@.len() - i,
    {
        let p = pieces[i].as_str();
        let plen2 = p.unicode_len();
        if plen2 > 0 && p.get_char(plen2 - 1) == '\r' {
            let cut = p.substring_char(0, plen2 - 1);
            proof {
                assert(cut@ =~= pieces@[i as int]@.drop_last());
            }
            out.push(String::from_str(cut));
        } else {
            out.push(pieces[i].clone());
        }
        i = i + 1;
    }
    out
}

/// The pieces joined with a single space between neighbours.
pub open spec fn join_space_spec(ps: Seq<Seq<char>>) -> Seq<char>
    decreases ps.len(),
{
    if ps.len() == 0 {
        Seq::<char>::empty()
    } else if ps.len() == 1 {
        ps[0]
    } else {
        join_space_spec(ps.drop_last()).push(' ') + ps.last()
    }
}

/// Joins the strings with single spaces.
pub fn join_space(v: &Vec<String>) -> (r: String)
    ensures
        r@ == join_space_spec(views(v@)),
{
    let mut out: String = String::new();
    let mut i: usize = 0;
    proof {
        assert(views(v@.subrange(0, 0)) =~= Seq::<Seq<char>>::empty());
    }
    while i < v.len()
        invariant
            i <= v@.len(),
            out@ == join_space_spec(views(v@.subrange(0, i as int))),
        decreases v@.len() - i,
    {
        proof {
            assert(views(v@.subrange(0, i + 1)).drop_last() =~= views(v@.subrange(0, i as int)));
            assert(views(v@.subrange(0, i + 1)).last() == v@[i as int]@);
            assert(views(v@.subrange(0, i + 1)).len() == i + 1);
        }
        if i > 0 {
            out.append(" ");
            proof {
                reveal_strlit(" ");
                assert(out@ =~= join_space_spec(views(v@.subrange(0, i as int))).push(' '));
            }
        }
        out.append(v[i].as_str());
        proof {
            if i == 0 {
                assert(out@ =~= v@[0]@);
            }
        }
        i = i + 1;
    }
    proof {
        assert(v@.subrange(0, i as int) =~= v@);
    }
    out
}

pub open spec fn is_digit(c: char) -> bool {
    '0' <= c && c <= '9'
}

pub open spec fn all_digits(s: Seq<char>) -> bool {
    forall|i: int| 0 <= i < s.len() ==> is_digit(#[trigger] s[i])
}

/// The numeric value of a decimal digit string.
pub open spec fn digits_val(s: Seq<char>) -> nat
    decreases s.len(),
{
    if s.len() == 0 {
        0
    } else {
        digits_val(s.drop_last()) * 10 + (if '0' <= s.last() && s.last() <= '9' {
            ((s.last() as int) - ('0' as int)) as nat
        } else {
            0nat
        })
    }
}

proof fn lemma_digits_val_monotone(s: Seq<char>, i: int)
    requires
        0 <= i <= s.len(),
    ensures
        digits_val(s.take(i)) <= digits_val(s),
    decreases s.len() - i,
{
    if i < s.len() {
        lemma_digits_val_monotone(s, i + 1);
        assert(s.take(i + 1).drop_last() =~= s.take(i));
        assert(digits_val(s.take(i)) <= digits_val(s.take(i + 1)));
    } else {
        assert(s.take(i) =~= s);
    }
}

fn digit_str(d: usize) -> (r: String)
    requires
        d < 10,
    ensures
        r@.len() == 1,
        is_digit(r@[0]),
        (r@[0] as int) - ('0' as int) == d,
{
    proof {
        reveal_strlit("0");
        reveal_strlit("1");
        reveal_strlit("2");
        reveal_strlit("3");
        reveal_strlit("4");
        reveal_strlit("5");
        reveal_strlit("6");
        reveal_strlit("7");
        reveal_strlit("8");
        reveal_strlit("9");
        assert("0"@ =~= seq!['0']);
        assert("1"@ =~= seq!['1']);
        assert("2"@ =~= seq!['2']);
        assert("3"@ =~= seq!['3']);
        assert("4"@ =~= seq!['4']);
        assert("5"@ =~= seq!['5']);
        assert("6"@ =~= seq!['6']);
        assert("7"@ =~= seq!['7']);
        assert("8"@ =~= seq!['8']);
        assert("9"@ =~= seq!['9']);
    }
    if d == 0 {
        String::from_str("0")
    } else if d == 1 {
        String::from_str("1")
    } else if d == 2 {
        String::from_str("2")
    } else if d == 3 {
        String::from_str("3")
    } else if d == 4 {
        String::from_str("4")
    } else if d == 5 {
        String::from_str("5")
    } else if d == 6 {
        String::from_str("6")
    } else if d == 7 {
        String::from_str("7")
    } else if d == 8 {
        String::from_str("8")
    } else {
        String::from_str("9")
    }
}

/// Renders a number in decimal.
pub fn to_decimal(n: usize) -> (r: String)
    ensures
        r@.len() > 0,
        all_digits(r@),
        digits_val(r@) == n,
    decreases n,
{
    if n < 10 {
        let s = digit_str(n);
        proof {
            assert(s@.drop_last() =~= Seq::<char>::empty());
            assert(digits_val(Seq::<char>::empty()) == 0);
            assert(s@.last() == s@[0]);
            assert(digits_val(s@) == 0 * 10 + ((s@.last() as int) - ('0' as int)));
        }
        s
    } else {
        let mut s = to_decimal(n / 10);
        let ghost pre = s@;
        let d = digit_str(n % 10);
        s.append(d.as_str());
        proof {
            assert(s@.drop_last() =~= pre);
            assert(s@.last() == d@[0]);
            assert(digits_val(s@) == digits_val(pre) * 10 + (n % 10));
            assert((n / 10) * 10 + (n % 10) == n) by (nonlinear_arith);
        }
        s
    }
}

/// Parses a non-empty all-digit decimal string into a `usize`; anything
/// else, including a value over `usize::MAX`, yields `None`.
pub fn parse_usize(s: &str) -> (r: Option<usize>)
    ensures
        r is Some <==> s@.len() > 0 && all_digits(s@) && digits_val(s@) <= usize::MAX,
        r matches Some(v) ==> v == digits_val(s@),
{
    let len = s.unicode_len();
    if len == 0 {
        return None;
    }
    let mut acc: usize = 0;
    let mut i: usize = 0;
    proof {
        assert(s@.take(0) =~= Seq::<char>::empty());
    }
    while i < len
        invariant
            i <= len,
            len == s@.len(),
            all_digits(s@.take(i as int)),
            acc == digits_val(s@.take(i as int)),
        decreases len - i,
    {
        proof {
            assert(s@.take(i + 1).drop_last() =~= s@.take(i as int));
            assert(s@.take(i + 1).last() == s@[i as int]);
        }
        let c = s.get_char(i);
        if !('0' <= c && c <= '9') {
            assert(!is_digit(s@[i as int]));
            return None;
        }
        let d: usize = (c as u32 as usize) - 48;
        assert(d == (s@[i as int] as nat) - ('0' as nat));
        if acc > (usize::MAX - d) / 10 {
            proof {
                assert(acc * 10 + d > usize::MAX) by (nonlinear_arith)
                    requires
                        acc > (usize::MAX - d) / 10,
                        d <= 9,
                ;
                assert(digits_val(s@.take(i + 1)) > usize::MAX);
                lemma_digits_val_monotone(s@, i + 1);
            }
            return None;
        }
        proof {
            assert(acc * 10 + d <= usize::MAX) by (nonlinear_arith)
                requires
                    acc <= (usize::MAX - d) / 10,
                    d <= 9,
            ;
        }
        acc = acc * 10 + d;
        i = i + 1;
    }
    proof {
        assert(s@.take(i as int) =~= s@);
    }
    Some(acc)
}

} // verus!
