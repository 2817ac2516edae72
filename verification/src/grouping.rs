//! The option grouper: recognizes compiler command lines in build
//! output, collects their flags and source files, and groups source
//! files by canonical (sorted, space-joined) option string.
use vstd::prelude::*;

use crate::shell::{shell_split, shell_split_of};
use crate::text::{
    basename_exec, basename_of, contains_str, join_space, join_space_spec, lemma_str_le_total,
    sort_strings, spec_contains_str, split_lines, split_lines_spec, str_eq, str_le, str_le_fn,
    strings_sorted, views,
};

verus! {

/// Grouped compilation result: the canonical option string, and the
/// source files compiled with exactly those options.
pub type CompilationGroup = (String, Vec<String>);

/// The index of the last `.` in `s`, or `-1` if there is none.
pub open spec fn last_dot(s: Seq<char>) -> int
    decreases s.len(),
{
    if s.len() == 0 {
        -1
    } else if s.last() == '.' {
        s.len() - 1
    } else {
        last_dot(s.drop_last())
    }
}

/// The extension of a file name: what follows the last `.`, which must
/// not be the name's first character (a leading dot marks a hidden file,
/// not an extension).
pub open spec fn ext_of(name: Seq<char>) -> Option<Seq<char>> {
    if last_dot(name) <= 0 {
        None
    } else {
        Some(name.skip(last_dot(name) + 1))
    }
}

/// The recognized source-file extensions.
pub open spec fn is_source_ext(e: Seq<char>) -> bool {
    ||| e == seq!['c']
    ||| e == seq!['c', 'p', 'p']
    ||| e == seq!['c', 'c']
    ||| e == seq!['c', 'x', 'x']
    ||| e == seq!['C']
}

/// Whether a command-line token names a source file: not a flag, and its
/// basename carries a recognized source extension.
pub open spec fn is_source_token(t: Seq<char>) -> bool {
    &&& !(t.len() > 0 && t[0] == '-')
    &&& ext_of(basename_of(t)) matches Some(e) && is_source_ext(e)
}

/// The flag tokens of an argument list, `-o` and its argument skipped.
pub open spec fn opt_tokens(args: Seq<Seq<char>>) -> Seq<Seq<char>>
    decreases args.len(),
{
    if args.len() == 0 {
        Seq::empty()
    } else if args.first() == seq!['-', 'o'] {
        if args.len() >= 2 {
            opt_tokens(args.skip(2))
        } else {
            Seq::empty()
        }
    } else if args.first().len() > 0 && args.first()[0] == '-' {
        seq![args.first()] + opt_tokens(args.drop_first())
    } else {
        opt_tokens(args.drop_first())
    }
}

/// The source-file tokens of an argument list, `-o` and its argument
/// skipped.
pub open spec fn file_tokens(args: Seq<Seq<char>>) -> Seq<Seq<char>>
    decreases args.len(),
{
    if args.len() == 0 {
        Seq::empty()
    } else if args.first() == seq!['-', 'o'] {
        if args.len() >= 2 {
            file_tokens(args.skip(2))
        } else {
            Seq::empty()
        }
    } else if args.first().len() > 0 && args.first()[0] == '-' {
        file_tokens(args.drop_first())
    } else if is_source_token(args.first()) {
        seq![args.first()] + file_tokens(args.drop_first())
    } else {
        file_tokens(args.drop_first())
    }
}

/// The canonical option string: the set of flags — sorted, duplicates
/// dropped — joined by spaces, so that two invocations with the same
/// flags in a different order or multiplicity get one key.
pub open spec fn spec_canon_options(opts: Seq<Seq<char>>) -> Seq<char> {
    join_space_spec(crate::text::dedup_keep_first(opts.sort_by(str_le_fn())))
}

pub open spec fn spec_compiler_recognized(first: Seq<char>, compilers: Seq<Seq<char>>) -> bool {
    exists|i: int| 0 <= i < compilers.len() && compilers[i] == basename_of(first)
}

/// What one shell-split command line contributes: its canonical option
/// string and its source files, or nothing when the first token's
/// basename is no known compiler or no source file is named.
pub open spec fn spec_parse_tokens(parts: Seq<Seq<char>>, compilers: Seq<Seq<char>>) -> Option<
    (Seq<char>, Seq<Seq<char>>),
> {
    if parts.len() == 0 {
        None
    } else if !spec_compiler_recognized(parts[0], compilers) {
        None
    } else if file_tokens(parts.drop_first()).len() == 0 {
        None
    } else {
        Some(
            (
                spec_canon_options(opt_tokens(parts.drop_first())),
                file_tokens(parts.drop_first()),
            ),
        )
    }
}

/// What one raw line contributes, after shell-word splitting.
pub open spec fn spec_parse_line(l: Seq<char>, compilers: Seq<Seq<char>>) -> Option<
    (Seq<char>, Seq<Seq<char>>),
> {
    match shell_split_of(l) {
        Some(t) => spec_parse_tokens(t, compilers),
        None => None,
    }
}

/// Decides whether a basename has a recognized source extension.
fn has_source_ext(name: &str) -> (r: bool)
    ensures
        r == (ext_of(name@) matches Some(e) && is_source_ext(e)),
{
    let len = name.unicode_len();
    let mut i: usize = len;
    while i > 0
        invariant
            i <= len,
            len == name@.len(),
            last_dot(name@.take(len as int)) == last_dot(name@.take(i as int)),
            forall|j: int| i <= j < len ==> name@[j] != '.',
        ensures
            i <= len,
            len == name@.len(),
            last_dot(name@.take(len as int)) == last_dot(name@.take(i as int)),
            i > 0 ==> name@[i - 1] == '.',
        decreases i,
    {
        proof {
            assert(name@.take(i as int).drop_last() =~= name@.take(i - 1));
            assert(name@.take(i as int).last() == name@[i - 1]);
        }
        let c = name.get_char(i - 1);
        if c == '.' {
            break;
        }
        i = i - 1;
    }
    proof {
        assert(name@.take(len as int) =~= name@);
    }
    if i <= 1 {
        proof {
            if i == 0 {
                assert(name@.take(0).len() == 0);
                assert(last_dot(name@) == -1);
            } else {
                assert(name@.take(1).drop_last() =~= name@.take(0));
                assert(name@.take(1).last() == name@[0]);
                assert(name@[0] == '.');
                assert(last_dot(name@) == 0);
            }
        }
        return false;
    }
    proof {
        assert(name@.take(i as int).last() == name@[i - 1]);
        assert(name@[i - 1] == '.');
        assert(last_dot(name@.take(i as int)) == i - 1);
        assert(last_dot(name@) == i - 1);
    }
    let ext = name.substring_char(i, len);
    proof {
        assert(ext@ =~= name@.skip(i as int));
        reveal_strlit("c");
        reveal_strlit("cpp");
        reveal_strlit("cc");
        reveal_strlit("cxx");
        reveal_strlit("C");
        assert("c"@ =~= seq!['c']);
        assert("cpp"@ =~= seq!['c', 'p', 'p']);
        assert("cc"@ =~= seq!['c', 'c']);
        assert("cxx"@ =~= seq!['c', 'x', 'x']);
        assert("C"@ =~= seq!['C']);
    }
    let r = str_eq(ext, "c") || str_eq(ext, "cpp") || str_eq(ext, "cc") || str_eq(ext, "cxx")
        || str_eq(ext, "C");
    r
}

/// Parses one shell-split compiler invocation: collects flags (skipping
/// `-o` and its argument) and source files, sorts the flags into the
/// canonical option string. Lines whose compiler is unrecognized, and
/// lines naming no source file, contribute nothing.
pub fn parse_compiler_tokens(parts: &Vec<String>, compilers: &Vec<String>) -> (r: Option<
    CompilationGroup,
>)
    ensures
        r is Some <==> spec_parse_tokens(views(parts@), views(compilers@)) is Some,
        r matches Some(g) ==> (
        match spec_parse_tokens(views(parts@), views(compilers@)) {
            Some(sg) => g.0@ == sg.0 && views(g.1@) == sg.1,
            None => false,
        }),
        parts@.len() > 0 && !spec_compiler_recognized(parts@[0]@, views(compilers@)) ==> r
            is None,
{
    if parts.len() == 0 {
        return None;
    }
    let cname = basename_exec(parts[0].as_str());
    if !contains_str(compilers, cname.as_str()) {
        proof {
            assert forall|i: int|
                0 <= i < views(compilers@).len() implies views(compilers@)[i] != basename_of(
                parts@[0]@,
            ) by {
                assert(compilers@[i]@ == views(compilers@)[i]);
            }
        }
        return None;
    }
    proof {
        let w = choose|i: int| 0 <= i < compilers@.len() && compilers@[i]@ == cname@;
        assert(views(compilers@)[w] == basename_of(parts@[0]@));
    }
    let ghost full = views(parts@).drop_first();
    let mut opts: Vec<String> = Vec::new();
    let mut files: Vec<String> = Vec::new();
    let mut i: usize = 1;
    proof {
        assert(full.skip(0) =~= full);
        assert(views(opts@) =~= Seq::<Seq<char>>::empty());
        assert(views(files@) =~= Seq::<Seq<char>>::empty());
        reveal_strlit("-o");
        assert("-o"@ =~= seq!['-', 'o']);
    }
    while i < parts.len()
        invariant
            1 <= i <= parts@.len(),
            full == views(parts@).drop_first(),
            opt_tokens(full) == views(opts@) + opt_tokens(full.skip(i - 1)),
            file_tokens(full) == views(files@) + file_tokens(full.skip(i - 1)),
        decreases parts@.len() - i,
    {
        let ghost rem = full.skip(i - 1);
        proof {
            assert(rem.first() == parts@[i as int]@);
            assert(rem.drop_first() =~= full.skip(i as int));
            reveal_strlit("-o");
            assert("-o"@ =~= seq!['-', 'o']);
        }
        let tok = parts[i].as_str();
        if str_eq(tok, "-o") {
            if i + 1 < parts.len() {
                proof {
                    assert(rem.len() >= 2);
                    assert(rem.skip(2) =~= full.skip(i + 1));
                    assert(views(opts@) + opt_tokens(full.skip(i + 1)) =~= views(opts@)
                        + opt_tokens(rem.skip(2)));
                }
                i = i + 2;
            } else {
                proof {
                    assert(rem.len() == parts@.len() - i);
                    if rem.len() >= 2 {
                        assert(false);
                    }
                    assert(opt_tokens(rem) =~= Seq::<Seq<char>>::empty());
                    assert(file_tokens(rem) =~= Seq::<Seq<char>>::empty());
                    assert(views(opts@) + opt_tokens(rem) =~= views(opts@));
                    assert(views(files@) + file_tokens(rem) =~= views(files@));
                    assert(full.skip(full.len() as int).len() == 0);
                    assert(opt_tokens(full.skip(full.len() as int)) =~= Seq::<Seq<char>>::empty());
                }
                i = parts.len();
                proof {
                    assert(views(opts@) + opt_tokens(full.skip(i - 1)) =~= views(opts@));
                    assert(views(files@) + file_tokens(full.skip(i - 1)) =~= views(files@));
                }
            }
            continue;
        }
        let tlen = tok.unicode_len();
        if tlen > 0 && tok.get_char(0) == '-' {
            let ghost pre = views(opts@);
            opts.push(parts[i].clone());
            proof {
                assert(views(opts@) =~= pre.push(parts@[i as int]@));
                assert(pre + (seq![rem.first()] + opt_tokens(rem.drop_first())) =~= views(opts@)
                    + opt_tokens(full.skip(i as int)));
            }
        } else {
            let base = basename_exec(tok);
            if has_source_ext(base.as_str()) {
                let ghost pre = views(files@);
                files.push(parts[i].clone());
                proof {
                    assert(is_source_token(rem.first()));
                    assert(views(files@) =~= pre.push(parts@[i as int]@));
                    assert(pre + (seq![rem.first()] + file_tokens(rem.drop_first())) =~= views(
                        files@,
                    ) + file_tokens(full.skip(i as int)));
                }
            } else {
                proof {
                    assert(!is_source_token(rem.first()));
                }
            }
        }
        i = i + 1;
    }
    proof {
        assert(full.skip(i - 1).len() == 0);
        assert(opt_tokens(full.skip(i - 1)) =~= Seq::<Seq<char>>::empty());
        assert(file_tokens(full.skip(i - 1)) =~= Seq::<Seq<char>>::empty());
        assert(views(opts@) + Seq::<Seq<char>>::empty() =~= views(opts@));
        assert(views(files@) + Seq::<Seq<char>>::empty() =~= views(files@));
        assert(views(opts@) =~= opt_tokens(full));
        assert(views(files@) =~= file_tokens(full));
    }
    if files.len() == 0 {
        proof {
            assert(file_tokens(views(parts@).drop_first()).len() == 0);
        }
        return None;
    }
    let sorted = sort_strings(&opts);
    let deduped = crate::text::dedup_sorted(&sorted);
    let key = join_space(&deduped);
    proof {
        let leq = str_le_fn();
        lemma_str_le_total();
        let target = opt_tokens(full).sort_by(leq);
        opt_tokens(full).lemma_sort_by_ensures(leq);
        assert(vstd::relations::sorted_by(views(sorted@), leq)) by {
            assert forall|a: int, b: int|
                0 <= a < b < views(sorted@).len() implies #[trigger] leq(
                views(sorted@)[a],
                views(sorted@)[b],
            ) by {
                assert(str_le(sorted@[a]@, sorted@[b]@));
            }
        }
        vstd::seq_lib::lemma_sorted_unique(views(sorted@), target, leq);
        assert(views(sorted@) == target);
        // The deduplicated sorted flags coincide with the spec-level
        // deduplication of the sorted flags.
        let dtarget = crate::text::dedup_keep_first(target);
        crate::text::lemma_dedup_keep_first_membership(target);
        crate::text::lemma_dedup_keep_first_distinct(target);
        crate::text::lemma_dedup_keep_first_sorted(target, leq);
        assert(vstd::relations::sorted_by(views(deduped@), leq)) by {
            assert forall|a: int, b: int|
                0 <= a < b < views(deduped@).len() implies #[trigger] leq(
                views(deduped@)[a],
                views(deduped@)[b],
            ) by {
                assert(str_le(deduped@[a]@, deduped@[b]@));
            }
        }
        assert forall|a: int, b: int|
            0 <= a < b < views(deduped@).len() implies #[trigger] views(deduped@)[a] != (
        #[trigger] views(deduped@)[b]) by {
            assert(deduped@[a]@ != deduped@[b]@);
        }
        assert forall|x: Seq<char>|
            views(deduped@).contains(x) <==> dtarget.contains(x) by {
            crate::text::lemma_views_contains(deduped@, x);
            crate::text::lemma_views_contains(sorted@, x);
        }
        crate::text::lemma_distinct_same_set_multiset(views(deduped@), dtarget);
        vstd::seq_lib::lemma_sorted_unique(views(deduped@), dtarget, leq);
        assert(views(deduped@) == dtarget);
        assert(key@ == spec_canon_options(opt_tokens(full)));
    }
    Some((key, files))
}

/// Whether some line of the build output contributes a group with key `key`.
pub open spec fn key_present(lines: Seq<Seq<char>>, comps: Seq<Seq<char>>, key: Seq<char>) -> bool {
    exists|i: int|
        {
            &&& 0 <= i < lines.len()
            &&& (#[trigger] spec_parse_line(lines[i], comps)) matches Some(g)
            &&& g.0 == key
        }
}

/// Whether some line with key `key` names the source file `x`.
pub open spec fn line_yields(
    lines: Seq<Seq<char>>,
    comps: Seq<Seq<char>>,
    key: Seq<char>,
    x: Seq<char>,
) -> bool {
    exists|i: int|
        {
            &&& 0 <= i < lines.len()
            &&& (#[trigger] spec_parse_line(lines[i], comps)) matches Some(g)
            &&& g.0 == key
            &&& g.1.contains(x)
        }
}

/// Moving the head of `rest` into `out` keeps the combined multiset.
proof fn lemma_move_one(
    pre_out: Seq<CompilationGroup>,
    pre_rest: Seq<CompilationGroup>,
    out2: Seq<CompilationGroup>,
    rest2: Seq<CompilationGroup>,
    pos: int,
    x: CompilationGroup,
)
    requires
        0 <= pos <= pre_out.len(),
        pre_rest.len() > 0,
        pre_rest[0] == x,
        out2 == pre_out.insert(pos, x),
        rest2 == pre_rest.remove(0),
    ensures
        out2.to_multiset().add(rest2.to_multiset()) == pre_out.to_multiset().add(
            pre_rest.to_multiset(),
        ),
{
    broadcast use vstd::multiset::group_multiset_axioms;

    vstd::seq_lib::to_multiset_insert(pre_out, pos, x);
    vstd::seq_lib::to_multiset_remove(pre_rest, 0);
    assert(pre_rest.contains(x));
    vstd::seq_lib::to_multiset_contains(pre_rest, x);
    assert(pre_rest.to_multiset().count(x) > 0);
    assert(out2.to_multiset().add(rest2.to_multiset()) =~= pre_out.to_multiset().add(
        pre_rest.to_multiset(),
    ));
}

/// Sorts groups by option string, keeping the multiset of groups.
fn sort_groups(v: Vec<CompilationGroup>) -> (r: Vec<CompilationGroup>)
    ensures
        r@.to_multiset() == v@.to_multiset(),
        forall|a: int, b: int|
            0 <= a < b < r@.len() ==> str_le(#[trigger] r@[a].0@, #[trigger] r@[b].0@),
{
    broadcast use vstd::seq_lib::group_to_multiset_ensures;
    broadcast use vstd::multiset::group_multiset_axioms;

    let ghost orig = v@;
    let mut rest = v;
    let mut out: Vec<CompilationGroup> = Vec::new();
    proof {
        assert(out@.to_multiset().add(rest@.to_multiset()) =~= orig.to_multiset());
    }
    while rest.len() > 0
        invariant
            orig.to_multiset() == out@.to_multiset().add(rest@.to_multiset()),
            forall|a: int, b: int|
                0 <= a < b < out@.len() ==> str_le(#[trigger] out@[a].0@, #[trigger] out@[b].0@),
        decreases rest@.len(),
    {
        let ghost pre_rest = rest@;
        let x = rest.remove(0);
        proof {
            assert(pre_rest.contains(x)) by {
                assert(pre_rest[0] == x);
            }
        }
        let mut pos: usize = 0;
        while pos < out.len()
            invariant
                pos <= out@.len(),
                forall|k: int| 0 <= k < pos ==> str_le(#[trigger] out@[k].0@, x.0@),
            ensures
                pos <= out@.len(),
                forall|k: int| 0 <= k < pos ==> str_le(#[trigger] out@[k].0@, x.0@),
                pos < out@.len() ==> str_le(x.0@, out@[pos as int].0@),
            decreases out@.len() - pos,
        {
            if !crate::text::str_le_exec(out[pos].0.as_str(), x.0.as_str()) {
                proof {
                    crate::text::lemma_str_le_connected(out@[pos as int].0@, x.0@);
                }
                break;
            }
            pos = pos + 1;
        }
        proof {
            assert forall|k: int| (pos as int) <= k < out@.len() implies str_le(
                x.0@,
                #[trigger] out@[k].0@,
            ) by {
                assert(str_le(x.0@, out@[pos as int].0@));
                if k > pos {
                    assert(str_le(out@[pos as int].0@, out@[k].0@));
                    crate::text::lemma_str_le_trans(x.0@, out@[pos as int].0@, out@[k].0@);
                }
            }
        }
        let ghost pre_out = out@;
        let ghost xv = x;
        out.insert(pos, x);
        proof {
            assert forall|a: int, b: int| 0 <= a < b < out@.len() implies str_le(
                #[trigger] out@[a].0@,
                #[trigger] out@[b].0@,
            ) by {
                pre_out.insert_ensures(pos as int, xv);
            }
            assert(out@ == pre_out.insert(pos as int, xv));
            assert(rest@ == pre_rest.remove(0));
            lemma_move_one(pre_out, pre_rest, out@, rest@, pos as int, xv);
        }
    }
    out
}

/// Two sequences holding the same multiset of groups have pairwise
/// distinct keys together.
proof fn lemma_keys_distinct_transfer(a: Seq<CompilationGroup>, b: Seq<CompilationGroup>)
    requires
        a.to_multiset() == b.to_multiset(),
        forall|i: int, j: int| 0 <= i < j < a.len() ==> (#[trigger] a[i].0@) != (#[trigger] a[j].0@),
    ensures
        forall|i: int, j: int| 0 <= i < j < b.len() ==> (#[trigger] b[i].0@) != (#[trigger] b[j].0@),
{
    broadcast use vstd::seq_lib::group_to_multiset_ensures;
    broadcast use vstd::multiset::group_multiset_axioms;

    assert forall|i: int, j: int|
        0 <= i < j < b.len() implies (#[trigger] b[i].0@) != (#[trigger] b[j].0@) by {
        if b[i].0@ == b[j].0@ {
            if b[i] == b[j] {
                vstd::seq_lib::to_multiset_remove(b, j);
                assert(b.remove(j)[i] == b[i]);
                assert(b.remove(j).contains(b[i])) by {
                    assert(b.remove(j)[i] == b[i]);
                }
                assert(b.remove(j).to_multiset().count(b[i]) > 0);
                assert(b.to_multiset().count(b[i]) >= 2);
                assert(a.to_multiset().count(b[i]) >= 2);
                assert(a.contains(b[i]));
                let i1 = choose|k: int| 0 <= k < a.len() && a[k] == b[i];
                vstd::seq_lib::to_multiset_remove(a, i1);
                assert(a.remove(i1).to_multiset().count(b[i]) > 0);
                assert(a.remove(i1).contains(b[i]));
                let i2 = choose|k: int| 0 <= k < a.remove(i1).len() && a.remove(i1)[k] == b[i];
                if i2 < i1 {
                    assert(a[i2] == b[i]);
                    assert(a[i2].0@ == a[i1].0@);
                } else {
                    assert(a[i2 + 1] == b[i]);
                    assert(a[i1].0@ == a[i2 + 1].0@);
                }
            } else {
                assert(b.contains(b[i]));
                assert(b.contains(b[j]));
                assert(a.to_multiset().count(b[i]) > 0);
                assert(a.to_multiset().count(b[j]) > 0);
                assert(a.contains(b[i]));
                assert(a.contains(b[j]));
                let i1 = choose|k: int| 0 <= k < a.len() && a[k] == b[i];
                let i2 = choose|k: int| 0 <= k < a.len() && a[k] == b[j];
                assert(i1 != i2);
                assert(a[i1].0@ == a[i2].0@);
            }
        }
    }
}

/// Pairwise distinct character contents.
pub open spec fn distinct_strs(v: Seq<String>) -> bool {
    forall|a: int, b: int| 0 <= a < b < v.len() ==> (#[trigger] v[a]@) != (#[trigger] v[b]@)
}

/// Whether some group in `s` carries the key `key`.
pub open spec fn group_key_at(s: Seq<CompilationGroup>, key: Seq<char>) -> bool {
    exists|m: int| 0 <= m < s.len() && (#[trigger] s[m]).0@ == key
}

spec fn pline_of(lines: Seq<Seq<char>>, comps: Seq<Seq<char>>, bound: int, g: CompilationGroup) -> bool {
    exists|i: int|
        {
            &&& 0 <= i < bound
            &&& i < lines.len()
            &&& #[trigger] spec_parse_line(lines[i], comps) == Some((g.0@, views(g.1@)))
        }
}

spec fn parsed_has(parsed: Seq<CompilationGroup>, g: (Seq<char>, Seq<Seq<char>>)) -> bool {
    exists|k: int|
        0 <= k < parsed.len() && ((#[trigger] parsed[k]).0@, views(parsed[k].1@)) == g
}

spec fn parsed_yields(parsed: Seq<CompilationGroup>, key: Seq<char>, x: Seq<char>) -> bool {
    exists|k: int|
        {
            &&& 0 <= k < parsed.len()
            &&& (#[trigger] parsed[k]).0@ == key
            &&& crate::text::spec_contains_str(parsed[k].1@, x)
        }
}

/// Equal multisets of contents carry the same membership.
proof fn lemma_same_members(a: Seq<String>, b: Seq<String>)
    requires
        views(a).to_multiset() == views(b).to_multiset(),
    ensures
        forall|x: Seq<char>|
            crate::text::spec_contains_str(a, x) <==> crate::text::spec_contains_str(b, x),
{
    assert forall|x: Seq<char>|
        crate::text::spec_contains_str(a, x) <==> crate::text::spec_contains_str(b, x) by {
        crate::text::lemma_views_contains(a, x);
        crate::text::lemma_views_contains(b, x);
        vstd::seq_lib::to_multiset_contains(views(a), x);
        vstd::seq_lib::to_multiset_contains(views(b), x);
    }
}

/// Decides whether a group with this key is already present.
fn find_group_key(out: &Vec<CompilationGroup>, key: &str) -> (r: bool)
    ensures
        r == group_key_at(out@, key@),
{
    let mut m: usize = 0;
    while m < out.len()
        invariant
            m <= out@.len(),
            forall|m2: int| 0 <= m2 < m ==> (#[trigger] out@[m2]).0@ != key@,
        decreases out@.len() - m,
    {
        if str_eq(out[m].0.as_str(), key) {
            return true;
        }
        m = m + 1;
    }
    false
}

/// What grouping guarantees: groups are keyed uniquely and ordered by
/// key; every key comes from some recognized line and every recognized
/// line's key has a group; each group's files are sorted, deduplicated,
/// and hold exactly the sources of the lines sharing that key.
pub open spec fn grouping_post(
    lines: Seq<Seq<char>>,
    comps: Seq<Seq<char>>,
    r: Seq<CompilationGroup>,
) -> bool {
    &&& forall|a: int, b: int|
        0 <= a < b < r.len() ==> str_le((#[trigger] r[a]).0@, (#[trigger] r[b]).0@) && r[a].0@
            != r[b].0@
    &&& forall|j: int| 0 <= j < r.len() ==> key_present(lines, comps, (#[trigger] r[j]).0@)
    &&& forall|i: int|
        0 <= i < lines.len() ==> ((#[trigger] spec_parse_line(lines[i], comps)) matches Some(g)
            ==> group_key_at(r, g.0))
    &&& forall|j: int| 0 <= j < r.len() ==> strings_sorted((#[trigger] r[j]).1@)
    &&& forall|j: int| 0 <= j < r.len() ==> distinct_strs((#[trigger] r[j]).1@)
    &&& forall|j: int, x: Seq<char>|
        0 <= j < r.len() ==> ((#[trigger] spec_contains_str(r[j].1@, x)) <==> line_yields(
            lines,
            comps,
            r[j].0@,
            x,
        ))
}

/// Two recognized lines naming the same source file under different
/// canonical option strings always yield two distinct groups, and the
/// file stands exactly once in each (its group's files being
/// duplicate-free).
pub proof fn lemma_distinct_options_make_groups(
    lines: Seq<Seq<char>>,
    comps: Seq<Seq<char>>,
    r: Seq<CompilationGroup>,
    i1: int,
    i2: int,
    x: Seq<char>,
)
    requires
        grouping_post(lines, comps, r),
        0 <= i1 < lines.len(),
        0 <= i2 < lines.len(),
        spec_parse_line(lines[i1], comps) is Some,
        spec_parse_line(lines[i2], comps) is Some,
        (spec_parse_line(lines[i1], comps)->0).1.contains(x),
        (spec_parse_line(lines[i2], comps)->0).1.contains(x),
        (spec_parse_line(lines[i1], comps)->0).0 != (spec_parse_line(lines[i2], comps)->0).0,
    ensures
        exists|j1: int, j2: int|
            {
                &&& 0 <= j1 < r.len()
                &&& 0 <= j2 < r.len()
                &&& j1 != j2
                &&& (#[trigger] r[j1]).0@ == (spec_parse_line(lines[i1], comps)->0).0
                &&& (#[trigger] r[j2]).0@ == (spec_parse_line(lines[i2], comps)->0).0
                &&& spec_contains_str(r[j1].1@, x)
                &&& spec_contains_str(r[j2].1@, x)
                &&& distinct_strs(r[j1].1@)
                &&& distinct_strs(r[j2].1@)
            },
{
    let g1 = spec_parse_line(lines[i1], comps)->0;
    let g2 = spec_parse_line(lines[i2], comps)->0;
    assert(group_key_at(r, g1.0));
    assert(group_key_at(r, g2.0));
    let j1 = choose|m: int| 0 <= m < r.len() && (#[trigger] r[m]).0@ == g1.0;
    let j2 = choose|m: int| 0 <= m < r.len() && (#[trigger] r[m]).0@ == g2.0;
    assert(line_yields(lines, comps, r[j1].0@, x)) by {
        assert({
            &&& 0 <= i1 < lines.len()
            &&& spec_parse_line(lines[i1], comps) matches Some(g)
            &&& g.0 == r[j1].0@
            &&& g.1.contains(x)
        });
    }
    assert(line_yields(lines, comps, r[j2].0@, x)) by {
        assert({
            &&& 0 <= i2 < lines.len()
            &&& spec_parse_line(lines[i2], comps) matches Some(g)
            &&& g.0 == r[j2].0@
            &&& g.1.contains(x)
        });
    }
    assert(spec_contains_str(r[j1].1@, x));
    assert(spec_contains_str(r[j2].1@, x));
    assert({
        &&& 0 <= j1 < r.len()
        &&& 0 <= j2 < r.len()
        &&& j1 != j2
        &&& r[j1].0@ == g1.0
        &&& r[j2].0@ == g2.0
        &&& spec_contains_str(r[j1].1@, x)
        &&& spec_contains_str(r[j2].1@, x)
        &&& distinct_strs(r[j1].1@)
        &&& distinct_strs(r[j2].1@)
    });
}

/// Parses build output and groups the source files of every recognized
/// compiler line by canonical option string. Groups are keyed uniquely,
/// ordered by key; each group's files are sorted and deduplicated, and
/// hold exactly the sources of the lines sharing that key.
pub fn parse_and_group(output: &str, compilers: &Vec<String>) -> (r: Vec<CompilationGroup>)
    ensures
        grouping_post(split_lines_spec(output@), views(compilers@), r@),
{
    let ghost slines = split_lines_spec(output@);
    let ghost comps = views(compilers@);
    let lines = split_lines(output);
    let mut parsed: Vec<CompilationGroup> = Vec::new();
    let mut li: usize = 0;
    while li < lines.len()
        invariant
            li <= lines@.len(),
            lines@.len() == slines.len(),
            forall|i2: int| 0 <= i2 < lines@.len() ==> (#[trigger] lines@[i2]@) == slines[i2],
            comps == views(compilers@),
            slines == split_lines_spec(output@),
            forall|k: int|
                0 <= k < parsed@.len() ==> pline_of(slines, comps, li as int, #[trigger] parsed@[k]),
            forall|i2: int|
                0 <= i2 < li ==> ((#[trigger] spec_parse_line(slines[i2], comps)) matches Some(g)
                    ==> parsed_has(parsed@, g)),
        decreases lines@.len() - li,
    {
        let ghost pre = parsed@;
        match parse_compiler_line(lines[li].as_str(), compilers) {
            Some(g) => {
                let ghost gv = g;
                parsed.push(g);
                proof {
                    assert(lines@[li as int]@ == slines[li as int]);
                    assert(spec_parse_line(slines[li as int], comps) == Some(
                        (gv.0@, views(gv.1@)),
                    ));
                    assert forall|k: int|
                        0 <= k < parsed@.len() implies pline_of(
                        slines,
                        comps,
                        (li + 1) as int,
                        #[trigger] parsed@[k],
                    ) by {
                        if k < pre.len() {
                            assert(parsed@[k] == pre[k]);
                            assert(pline_of(slines, comps, li as int, pre[k]));
                            let i3 = choose|i3: int|
                                {
                                    &&& 0 <= i3 < li
                                    &&& i3 < slines.len()
                                    &&& #[trigger] spec_parse_line(slines[i3], comps) == Some(
                                        (pre[k].0@, views(pre[k].1@)),
                                    )
                                };
                            assert(0 <= i3 < li + 1);
                        } else {
                            assert(parsed@[k] == gv);
                        }
                    }
                    assert forall|i2: int|
                        0 <= i2 < li + 1 implies ((#[trigger] spec_parse_line(slines[i2], comps))
                        matches Some(g2) ==> parsed_has(parsed@, g2)) by {
                        if spec_parse_line(slines[i2], comps) is Some {
                            let g2 = spec_parse_line(slines[i2], comps)->0;
                            if i2 < li {
                                assert(parsed_has(pre, g2));
                                let k = choose|k: int|
                                    0 <= k < pre.len() && ((#[trigger] pre[k]).0@, views(
                                        pre[k].1@,
                                    )) == g2;
                                assert(parsed@[k] == pre[k]);
                            } else {
                                let kn = parsed@.len() - 1;
                                assert(parsed@[kn] == gv);
                                assert((parsed@[kn].0@, views(parsed@[kn].1@)) == g2);
                            }
                        }
                    }
                }
            },
            None => {
                proof {
                    assert(lines@[li as int]@ == slines[li as int]);
                    assert(spec_parse_line(slines[li as int], comps) is None);
                }
            },
        }
        li = li + 1;
    }
    let mut out: Vec<CompilationGroup> = Vec::new();
    let mut ki: usize = 0;
    while ki < parsed.len()
        invariant
            ki <= parsed@.len(),
            forall|m1: int, m2: int|
                0 <= m1 < m2 < out@.len() ==> (#[trigger] out@[m1].0@) != (#[trigger] out@[m2].0@),
            forall|m: int|
                0 <= m < out@.len() ==> exists|k: int|
                    0 <= k < parsed@.len() && (#[trigger] parsed@[k]).0@ == (#[trigger] out@[m]).0@,
            forall|k: int| 0 <= k < ki ==> group_key_at(out@, (#[trigger] parsed@[k]).0@),
            forall|m: int| 0 <= m < out@.len() ==> strings_sorted((#[trigger] out@[m]).1@),
            forall|m: int| 0 <= m < out@.len() ==> distinct_strs((#[trigger] out@[m]).1@),
            forall|m: int, x: Seq<char>|
                0 <= m < out@.len() ==> ((#[trigger] spec_contains_str(out@[m].1@, x))
                    <==> parsed_yields(parsed@, out@[m].0@, x)),
        decreases parsed@.len() - ki,
    {
        let have = find_group_key(&out, parsed[ki].0.as_str());
        if !have {
            let key = parsed[ki].0.clone();
            let mut fs: Vec<String> = Vec::new();
            let mut k2: usize = 0;
            while k2 < parsed.len()
                invariant
                    k2 <= parsed@.len(),
                    ki < parsed@.len(),
                    key@ == parsed@[ki as int].0@,
                    forall|x: Seq<char>|
                        (#[trigger] spec_contains_str(fs@, x)) <==> exists|k3: int|
                            {
                                &&& 0 <= k3 < k2
                                &&& (#[trigger] parsed@[k3]).0@ == key@
                                &&& spec_contains_str(parsed@[k3].1@, x)
                            },
                decreases parsed@.len() - k2,
            {
                if str_eq(parsed[k2].0.as_str(), key.as_str()) {
                    let mut fj: usize = 0;
                    while fj < parsed[k2].1.len()
                        invariant
                            fj <= parsed@[k2 as int].1@.len(),
                            k2 < parsed@.len(),
                            parsed@[k2 as int].0@ == key@,
                            forall|x: Seq<char>|
                                (#[trigger] spec_contains_str(fs@, x)) <==> (exists|k3: int|
                                    {
                                        &&& 0 <= k3 < k2
                                        &&& (#[trigger] parsed@[k3]).0@ == key@
                                        &&& spec_contains_str(parsed@[k3].1@, x)
                                    }
                                    || exists|f2: int|
                                        0 <= f2 < fj && (#[trigger] parsed@[k2 as int].1@[f2]@)
                                            == x),
                        decreases parsed@[k2 as int].1@.len() - fj,
                    {
                        let ghost pre_fs = fs@;
                        let x = parsed[k2].1[fj].clone();
                        fs.push(x);
                        proof {
                            assert(fs@[fs@.len() - 1]@ == parsed@[k2 as int].1@[fj as int]@);
                            assert forall|y: Seq<char>|
                                (#[trigger] spec_contains_str(fs@, y)) implies (exists|k3: int|
                                {
                                    &&& 0 <= k3 < k2
                                    &&& (#[trigger] parsed@[k3]).0@ == key@
                                    &&& spec_contains_str(parsed@[k3].1@, y)
                                }
                                || exists|f2: int|
                                    0 <= f2 < fj + 1 && (#[trigger] parsed@[k2 as int].1@[f2]@)
                                        == y) by {
                                let a = choose|a: int| 0 <= a < fs@.len() && fs@[a]@ == y;
                                if a < pre_fs.len() {
                                    assert(spec_contains_str(pre_fs, y)) by {
                                        assert(pre_fs[a]@ == y);
                                    }
                                } else {
                                    assert(parsed@[k2 as int].1@[fj as int]@ == y);
                                }
                            }
                            assert forall|y: Seq<char>|
                                (exists|k3: int|
                                    {
                                        &&& 0 <= k3 < k2
                                        &&& (#[trigger] parsed@[k3]).0@ == key@
                                        &&& spec_contains_str(parsed@[k3].1@, y)
                                    }
                                    || exists|f2: int|
                                        0 <= f2 < fj + 1 && (#[trigger] parsed@[k2 as int].1@[f2]@)
                                            == y) implies (#[trigger] spec_contains_str(
                                fs@,
                                y,
                            )) by {
                                if exists|k3: int|
                                    {
                                        &&& 0 <= k3 < k2
                                        &&& (#[trigger] parsed@[k3]).0@ == key@
                                        &&& spec_contains_str(parsed@[k3].1@, y)
                                    } {
                                    assert(spec_contains_str(pre_fs, y));
                                    let a = choose|a: int|
                                        0 <= a < pre_fs.len() && pre_fs[a]@ == y;
                                    assert(fs@[a]@ == y);
                                } else {
                                    let f2 = choose|f2: int|
                                        0 <= f2 < fj + 1 && parsed@[k2 as int].1@[f2]@ == y;
                                    if f2 < fj {
                                        assert(spec_contains_str(pre_fs, y));
                                        let a = choose|a: int|
                                            0 <= a < pre_fs.len() && pre_fs[a]@ == y;
                                        assert(fs@[a]@ == y);
                                    } else {
                                        assert(fs@[fs@.len() - 1]@ == y);
                                    }
                                }
                            }
                        }
                        fj = fj + 1;
                    }
                    proof {
                        assert forall|y: Seq<char>|
                            (#[trigger] spec_contains_str(fs@, y)) implies (exists|k3: int|
                            {
                                &&& 0 <= k3 < k2 + 1
                                &&& (#[trigger] parsed@[k3]).0@ == key@
                                &&& spec_contains_str(parsed@[k3].1@, y)
                            }) by {
                            if !(exists|k3: int|
                                {
                                    &&& 0 <= k3 < k2
                                    &&& (#[trigger] parsed@[k3]).0@ == key@
                                    &&& spec_contains_str(parsed@[k3].1@, y)
                                }) {
                                let f2 = choose|f2: int|
                                    0 <= f2 < parsed@[k2 as int].1@.len() && parsed@[k2 as int].1@[f2]@
                                        == y;
                                assert(spec_contains_str(parsed@[k2 as int].1@, y)) by {
                                    assert(parsed@[k2 as int].1@[f2]@ == y);
                                }
                            }
                        }
                        assert forall|y: Seq<char>|
                            (exists|k3: int|
                                {
                                    &&& 0 <= k3 < k2 + 1
                                    &&& (#[trigger] parsed@[k3]).0@ == key@
                                    &&& spec_contains_str(parsed@[k3].1@, y)
                                }) implies (#[trigger] spec_contains_str(fs@, y)) by {
                            let k3 = choose|k3: int|
                                {
                                    &&& 0 <= k3 < k2 + 1
                                    &&& (#[trigger] parsed@[k3]).0@ == key@
                                    &&& spec_contains_str(parsed@[k3].1@, y)
                                };
                            if k3 == k2 {
                                let f2 = choose|f2: int|
                                    0 <= f2 < parsed@[k2 as int].1@.len()
                                        && parsed@[k2 as int].1@[f2]@ == y;
                                assert(0 <= f2 < parsed@[k2 as int].1@.len()
                                    && parsed@[k2 as int].1@[f2]@ == y);
                            }
                        }
                    }
                } else {
                    proof {
                        assert(parsed@[k2 as int].0@ != key@);
                    }
                }
                k2 = k2 + 1;
            }
            let tmp = sort_strings(&fs);
            let sorted_fs = crate::text::dedup_sorted(&tmp);
            proof {
                lemma_same_members(fs@, tmp@);
            }
            let ghost pre_out = out@;
            out.push((key, sorted_fs));
            proof {
                let m_new = out@.len() - 1;
                assert forall|m: int, x: Seq<char>|
                    0 <= m < out@.len() implies ((#[trigger] spec_contains_str(out@[m].1@, x))
                    <==> parsed_yields(parsed@, out@[m].0@, x)) by {
                    if m < m_new {
                        assert(out@[m] == pre_out[m]);
                    } else {
                        assert(out@[m].0@ == key@);
                        assert(spec_contains_str(out@[m].1@, x) <==> spec_contains_str(fs@, x));
                    }
                }
                assert forall|k: int|
                    0 <= k < ki + 1 implies group_key_at(out@, (#[trigger] parsed@[k]).0@) by {
                    if k < ki {
                        let m = choose|m: int|
                            0 <= m < pre_out.len() && (#[trigger] pre_out[m]).0@ == parsed@[k].0@;
                        assert(out@[m].0@ == parsed@[k].0@);
                    } else {
                        assert(out@[m_new].0@ == parsed@[k].0@);
                    }
                }
            }
        } else {
            proof {
                assert forall|k: int|
                    0 <= k < ki + 1 implies group_key_at(out@, (#[trigger] parsed@[k]).0@) by {
                }
            }
        }
        ki = ki + 1;
    }
    let res = sort_groups(out);
    proof {
        let ghost outg = out@;
        lemma_keys_distinct_transfer(outg, res@);
        assert forall|j: int| 0 <= j < res@.len() implies outg.contains(#[trigger] res@[j]) by {
            vstd::seq_lib::to_multiset_contains(res@, res@[j]);
            vstd::seq_lib::to_multiset_contains(outg, res@[j]);
            assert(res@.contains(res@[j]));
        }
        assert forall|a: int, b: int|
            0 <= a < b < res@.len() implies str_le((#[trigger] res@[a]).0@, (#[trigger] res@[b]).0@)
            && res@[a].0@ != res@[b].0@ by {
        }
        assert forall|j: int|
            0 <= j < res@.len() implies key_present(slines, comps, (#[trigger] res@[j]).0@) by {
            let m = choose|m: int| 0 <= m < outg.len() && outg[m] == res@[j];
            let k = choose|k: int|
                0 <= k < parsed@.len() && (#[trigger] parsed@[k]).0@ == outg[m].0@;
            assert(pline_of(slines, comps, slines.len() as int, parsed@[k]));
            let i3 = choose|i3: int|
                {
                    &&& 0 <= i3 < slines.len()
                    &&& i3 < slines.len()
                    &&& #[trigger] spec_parse_line(slines[i3], comps) == Some(
                        (parsed@[k].0@, views(parsed@[k].1@)),
                    )
                };
            assert(spec_parse_line(slines[i3], comps) matches Some(g) && g.0 == res@[j].0@);
        }
        assert forall|i: int|
            0 <= i < slines.len() implies ((#[trigger] spec_parse_line(slines[i], comps)) matches
        Some(g) ==> group_key_at(res@, g.0)) by {
            if spec_parse_line(slines[i], comps) is Some {
                let g = spec_parse_line(slines[i], comps)->0;
                assert(parsed_has(parsed@, g));
                let k = choose|k: int|
                    0 <= k < parsed@.len() && ((#[trigger] parsed@[k]).0@, views(parsed@[k].1@))
                        == g;
                assert(group_key_at(outg, parsed@[k].0@));
                let m = choose|m: int| 0 <= m < outg.len() && (#[trigger] outg[m]).0@ == g.0;
                vstd::seq_lib::to_multiset_contains(outg, outg[m]);
                vstd::seq_lib::to_multiset_contains(res@, outg[m]);
                assert(outg.contains(outg[m]));
                assert(res@.contains(outg[m]));
                let j = choose|j: int| 0 <= j < res@.len() && res@[j] == outg[m];
                assert((#[trigger] res@[j]).0@ == g.0);
            }
        }
        assert forall|j: int| 0 <= j < res@.len() implies strings_sorted((#[trigger] res@[j]).1@)
            && distinct_strs(res@[j].1@) by {
            let m = choose|m: int| 0 <= m < outg.len() && outg[m] == res@[j];
        }
        assert forall|j: int, x: Seq<char>|
            0 <= j < res@.len() implies ((#[trigger] spec_contains_str(res@[j].1@, x))
            <==> line_yields(slines, comps, res@[j].0@, x)) by {
            let m = choose|m: int| 0 <= m < outg.len() && outg[m] == res@[j];
            assert(spec_contains_str(res@[j].1@, x) <==> parsed_yields(parsed@, res@[j].0@, x));
            if parsed_yields(parsed@, res@[j].0@, x) {
                let k = choose|k: int|
                    {
                        &&& 0 <= k < parsed@.len()
                        &&& (#[trigger] parsed@[k]).0@ == res@[j].0@
                        &&& spec_contains_str(parsed@[k].1@, x)
                    };
                assert(pline_of(slines, comps, slines.len() as int, parsed@[k]));
                let i3 = choose|i3: int|
                    {
                        &&& 0 <= i3 < slines.len()
                        &&& i3 < slines.len()
                        &&& #[trigger] spec_parse_line(slines[i3], comps) == Some(
                            (parsed@[k].0@, views(parsed@[k].1@)),
                        )
                    };
                crate::text::lemma_views_contains(parsed@[k].1@, x);
                assert(spec_parse_line(slines[i3], comps) matches Some(g) && g.0 == res@[j].0@
                    && g.1.contains(x));
            }
            if line_yields(slines, comps, res@[j].0@, x) {
                let i3 = choose|i3: int|
                    {
                        &&& 0 <= i3 < slines.len()
                        &&& (#[trigger] spec_parse_line(slines[i3], comps)) matches Some(g)
                        &&& g.0 == res@[j].0@
                        &&& g.1.contains(x)
                    };
                let g = spec_parse_line(slines[i3], comps)->0;
                assert(parsed_has(parsed@, g));
                let k = choose|k: int|
                    0 <= k < parsed@.len() && ((#[trigger] parsed@[k]).0@, views(parsed@[k].1@))
                        == g;
                crate::text::lemma_views_contains(parsed@[k].1@, x);
                assert(parsed_yields(parsed@, res@[j].0@, x)) by {
                    assert(parsed@[k].0@ == res@[j].0@ && spec_contains_str(parsed@[k].1@, x));
                }
            }
        }
    }
    res
}

/// Parses one raw build-output line.
pub fn parse_compiler_line(line: &str, compilers: &Vec<String>) -> (r: Option<CompilationGroup>)
    ensures
        r is Some <==> spec_parse_line(line@, views(compilers@)) is Some,
        r matches Some(g) ==> (
        match spec_parse_line(line@, views(compilers@)) {
            Some(sg) => g.0@ == sg.0 && views(g.1@) == sg.1,
            None => false,
        }),
{
    match shell_split(line) {
        Some(parts) => {
            proof {
                let ss = shell_split_of(line@)->0;
                assert(views(parts@) =~= ss);
            }
            parse_compiler_tokens(&parts, compilers)
        },
        None => None,
    }
}

} // verus!
