//! The target classifier: which files in the project tree count as
//! build artifacts (static libraries, shared libraries, executables),
//! the authoritative target list derived from a scan, and the parsing
//! of the stored list and of the operator's selection.
use vstd::prelude::*;

use crate::error::Error;
use crate::text::{
    all_digits, basename_of, contains_str, dedup_sorted, digits_val, is_digit, is_prefix,
    is_suffix, sort_strings, spec_contains_str, split_char_spec, split_lines, split_lines_spec,
    str_eq, strings_sorted, to_decimal, trim_exec, trim_spec, views,
};

verus! {

/// The classification of a discovered build artifact.
#[derive(Debug, Clone, Copy, PartialEq, Eq, Structural)]
pub enum TargetKind {
    StaticLib,
    SharedLib,
    Executable,
}

/// A versioned shared-library tail: non-empty, and every dot-separated
/// part is a non-empty run of digits.
pub open spec fn numeric_dot_tail(t: Seq<char>) -> bool {
    &&& t.len() > 0
    &&& forall|i: int|
        0 <= i < split_char_spec(t, '.').len() ==> (#[trigger] split_char_spec(t, '.')[i]).len()
            > 0 && all_digits(split_char_spec(t, '.')[i])
}

/// Whether the name carries `.so.` followed by a purely numeric
/// dot-separated version tail.
pub open spec fn spec_is_versioned_so(name: Seq<char>) -> bool {
    exists|p: int|
        {
            &&& 0 <= p
            &&& p + 4 <= name.len()
            &&& #[trigger] name.subrange(p, p + 4) == seq!['.', 's', 'o', '.']
            &&& numeric_dot_tail(name.skip(p + 4))
        }
}

pub open spec fn spec_is_static_lib(name: Seq<char>) -> bool {
    is_suffix(".a"@, name) && is_prefix("lib"@, name)
}

/// File names that are never binary targets: sources, headers, objects
/// and scripts.
pub open spec fn spec_nonbinary_name(name: Seq<char>) -> bool {
    ||| is_suffix(".c"@, name)
    ||| is_suffix(".cpp"@, name)
    ||| is_suffix(".cc"@, name)
    ||| is_suffix(".cxx"@, name)
    ||| is_suffix(".h"@, name)
    ||| is_suffix(".hpp"@, name)
    ||| is_suffix(".hxx"@, name)
    ||| is_suffix(".o"@, name)
    ||| is_suffix(".sh"@, name)
    ||| is_suffix(".bash"@, name)
    ||| is_suffix(".py"@, name)
    ||| is_suffix(".pl"@, name)
    ||| is_suffix(".rb"@, name)
    ||| is_suffix(".lua"@, name)
    ||| is_suffix(".js"@, name)
    ||| is_suffix(".ts"@, name)
}

/// How a file name (with the file's execute bit and its first two
/// bytes) classifies. `shebang` is `Some(true)` when the file starts
/// with the interpreter signature, `Some(false)` when it provably does
/// not, and `None` when the file could not be read — such a file is
/// conservatively excluded.
pub open spec fn spec_classify(name: Seq<char>, is_exec: bool, shebang: Option<bool>) -> Option<
    TargetKind,
> {
    if spec_is_static_lib(name) {
        Some(TargetKind::StaticLib)
    } else if is_suffix(".so"@, name) {
        Some(TargetKind::SharedLib)
    } else if spec_is_versioned_so(name) {
        Some(TargetKind::SharedLib)
    } else if spec_nonbinary_name(name) {
        None
    } else if is_exec && shebang == Some(false) {
        Some(TargetKind::Executable)
    } else {
        None
    }
}

/// All characters of a numeric dot tail are digits or dots.
proof fn lemma_numeric_tail_chars(t: Seq<char>)
    requires
        forall|i: int|
            0 <= i < split_char_spec(t, '.').len() ==> all_digits(
                #[trigger] split_char_spec(t, '.')[i],
            ),
    ensures
        forall|i: int| 0 <= i < t.len() ==> t[i] == '.' || is_digit(#[trigger] t[i]),
    decreases t.len(),
{
    if t.len() > 0 {
        let pre = t.drop_last();
        let ps = split_char_spec(t, '.');
        crate::text::lemma_split_char_len(pre, '.');
        if t.last() == '.' {
            assert forall|i: int|
                0 <= i < split_char_spec(pre, '.').len() implies all_digits(
                #[trigger] split_char_spec(pre, '.')[i],
            ) by {
                assert(ps[i] == split_char_spec(pre, '.')[i]);
            }
            lemma_numeric_tail_chars(pre);
            assert forall|i: int| 0 <= i < t.len() implies t[i] == '.' || is_digit(
                #[trigger] t[i],
            ) by {
                if i < t.len() - 1 {
                    assert(t[i] == pre[i]);
                    assert(pre[i] == '.' || is_digit(pre[i]));
                }
            }
        } else {
            let rs = split_char_spec(pre, '.');
            assert forall|i: int| 0 <= i < rs.len() implies all_digits(#[trigger] rs[i]) by {
                if i < rs.len() - 1 {
                    assert(ps[i] == rs[i]);
                } else {
                    assert(ps[i] == rs[i].push(t.last()));
                    assert(all_digits(ps[i]));
                    assert forall|j: int| 0 <= j < rs[i].len() implies is_digit(
                        #[trigger] rs[i][j],
                    ) by {
                        assert(rs[i][j] == ps[i][j]);
                    }
                }
            }
            lemma_numeric_tail_chars(pre);
            assert(ps[ps.len() - 1] == rs[rs.len() - 1].push(t.last()));
            assert(is_digit(t.last())) by {
                assert(ps[ps.len() - 1].last() == t.last());
                assert(all_digits(ps[ps.len() - 1]));
            }
            assert forall|i: int| 0 <= i < t.len() implies t[i] == '.' || is_digit(
                #[trigger] t[i],
            ) by {
                if i < t.len() - 1 {
                    assert(t[i] == pre[i]);
                    assert(pre[i] == '.' || is_digit(pre[i]));
                } else {
                    assert(t[i] == t.last());
                }
            }
        }
    }
}

/// Decides whether `name` ends in `.so.` plus a numeric version tail.
fn is_versioned_so(name: &str) -> (r: bool)
    ensures
        r == spec_is_versioned_so(name@),
{
    let len = name.unicode_len();
    if len < 5 {
        proof {
            assert forall|p: int|
                !({
                    &&& 0 <= p
                    &&& p + 4 <= name@.len()
                    &&& #[trigger] name@.subrange(p, p + 4) == seq!['.', 's', 'o', '.']
                    &&& numeric_dot_tail(name@.skip(p + 4))
                }) by {
                if 0 <= p && p + 4 <= name@.len() {
                    assert(name@.skip(p + 4).len() == name@.len() - p - 4);
                }
            }
            assert(!spec_is_versioned_so(name@));
        }
        return false;
    }
    let mut q: usize = len - 4;
    let mut found: bool = false;
    let mut fp: usize = 0;
    loop
        invariant_except_break
            q <= len - 4,
            len == name@.len(),
            len >= 5,
            !found,
            forall|p: int|
                q < p <= len - 4 ==> #[trigger] name@.subrange(p, p + 4) != seq![
                    '.',
                    's',
                    'o',
                    '.',
                ],
        ensures
            len == name@.len(),
            !found ==> forall|p: int|
                0 <= p <= len - 4 ==> #[trigger] name@.subrange(p, p + 4) != seq![
                    '.',
                    's',
                    'o',
                    '.',
                ],
            found ==> fp <= len - 4 && name@.subrange(fp as int, fp + 4) == seq![
                '.',
                's',
                'o',
                '.',
            ],
            found ==> forall|p: int|
                fp < p <= len - 4 ==> #[trigger] name@.subrange(p, p + 4) != seq![
                    '.',
                    's',
                    'o',
                    '.',
                ],
        decreases q,
    {
        let hit = name.get_char(q) == '.' && name.get_char(q + 1) == 's' && name.get_char(q + 2)
            == 'o' && name.get_char(q + 3) == '.';
        proof {
            if hit {
                assert(name@.subrange(q as int, q + 4) =~= seq!['.', 's', 'o', '.']);
            } else {
                assert(name@.subrange(q as int, q + 4) != seq!['.', 's', 'o', '.']) by {
                    if name@.subrange(q as int, q + 4) == seq!['.', 's', 'o', '.'] {
                        assert(name@[q as int] == '.');
                        assert(name@[q + 1] == 's');
                        assert(name@[q + 2] == 'o');
                        assert(name@[q + 3] == '.');
                    }
                }
            }
        }
        if hit {
            found = true;
            fp = q;
            break;
        }
        if q == 0 {
            break;
        }
        q = q - 1;
    }
    if !found {
        proof {
            assert forall|p: int|
                !({
                    &&& 0 <= p
                    &&& p + 4 <= name@.len()
                    &&& #[trigger] name@.subrange(p, p + 4) == seq!['.', 's', 'o', '.']
                    &&& numeric_dot_tail(name@.skip(p + 4))
                }) by {}
        }
        return false;
    }
    // Check that everything after the last `.so.` is a numeric dot tail.
    let tail = name.substring_char(fp + 4, len);
    proof {
        assert(tail@ =~= name@.skip(fp + 4));
    }
    let parts = crate::text::split_char(tail, '.');
    let mut k: usize = 0;
    let mut ok: bool = tail.unicode_len() > 0;
    while k < parts.len()
        invariant
            k <= parts@.len(),
            parts@.len() == split_char_spec(tail@, '.').len(),
            forall|j: int|
                0 <= j < parts@.len() ==> (#[trigger] parts@[j]@) == split_char_spec(tail@, '.')[j],
            ok == (tail@.len() > 0 && forall|j: int|
                0 <= j < k ==> (#[trigger] split_char_spec(tail@, '.')[j]).len() > 0 && all_digits(
                    split_char_spec(tail@, '.')[j],
                )),
        decreases parts@.len() - k,
    {
        let p = parts[k].as_str();
        let plen = p.unicode_len();
        let mut all: bool = plen > 0;
        let mut ci: usize = 0;
        while ci < plen
            invariant
                ci <= plen,
                plen == p@.len(),
                all == (p@.len() > 0 && forall|j: int| 0 <= j < ci ==> is_digit(#[trigger] p@[j])),
            decreases plen - ci,
        {
            let c = p.get_char(ci);
            if !('0' <= c && c <= '9') {
                all = false;
            }
            ci = ci + 1;
        }
        proof {
            assert(p@ == split_char_spec(tail@, '.')[k as int]);
            if all {
                assert(all_digits(p@));
            } else {
                if p@.len() > 0 && all_digits(p@) {
                    assert(false);
                }
            }
        }
        ok = ok && all;
        k = k + 1;
    }
    if ok {
        proof {
            assert(numeric_dot_tail(name@.skip(fp + 4)));
            assert(spec_is_versioned_so(name@)) by {
                assert({
                    &&& 0 <= fp as int
                    &&& fp + 4 <= name@.len()
                    &&& name@.subrange(fp as int, fp + 4) == seq!['.', 's', 'o', '.']
                    &&& numeric_dot_tail(name@.skip(fp + 4))
                });
            }
        }
        true
    } else {
        proof {
            assert(!numeric_dot_tail(name@.skip(fp + 4)));
            assert forall|p: int|
                !({
                    &&& 0 <= p
                    &&& p + 4 <= name@.len()
                    &&& #[trigger] name@.subrange(p, p + 4) == seq!['.', 's', 'o', '.']
                    &&& numeric_dot_tail(name@.skip(p + 4))
                }) by {
                if 0 <= p && p + 4 <= name@.len() && name@.subrange(p, p + 4) == seq![
                    '.',
                    's',
                    'o',
                    '.',
                ] && numeric_dot_tail(name@.skip(p + 4)) {
                    assert(p <= fp);
                    if p < fp {
                        lemma_numeric_tail_chars(name@.skip(p + 4));
                        // The `s` of the last `.so.` occurrence lies inside this
                        // tail, and is neither a digit nor a dot.
                        assert(name@[fp + 1] == 's');
                        assert(p != fp - 1 && p != fp - 2) by {
                            if p == fp - 1 {
                                assert(name@.subrange(p, p + 4)[1] == 's');
                                assert(name@[fp as int] == 's');
                                assert(name@.subrange(fp as int, fp + 4)[0] == '.');
                            }
                            if p == fp - 2 {
                                assert(name@.subrange(p, p + 4)[2] == 'o');
                                assert(name@[fp as int] == 'o');
                                assert(name@.subrange(fp as int, fp + 4)[0] == '.');
                            }
                        }
                        assert(fp + 1 - (p + 4) >= 0);
                        assert(name@.skip(p + 4)[fp + 1 - (p + 4)] == name@[fp + 1]);
                        assert(!is_digit('s') && 's' != '.');
                    }
                }
            }
        }
        false
    }
}

/// Classifies a file name together with its execute permission and
/// interpreter-signature status.
pub fn classify_target(name: &str, is_exec: bool, shebang: Option<bool>) -> (r: Option<TargetKind>)
    ensures
        r == spec_classify(name@, is_exec, shebang),
{
    if crate::text::ends_with_str(name, ".a") && crate::text::starts_with_str(name, "lib") {
        return Some(TargetKind::StaticLib);
    }
    if crate::text::ends_with_str(name, ".so") {
        return Some(TargetKind::SharedLib);
    }
    if is_versioned_so(name) {
        return Some(TargetKind::SharedLib);
    }
    if crate::text::ends_with_str(name, ".c") || crate::text::ends_with_str(name, ".cpp")
        || crate::text::ends_with_str(name, ".cc") || crate::text::ends_with_str(name, ".cxx")
        || crate::text::ends_with_str(name, ".h") || crate::text::ends_with_str(name, ".hpp")
        || crate::text::ends_with_str(name, ".hxx") || crate::text::ends_with_str(name, ".o")
        || crate::text::ends_with_str(name, ".sh") || crate::text::ends_with_str(name, ".bash")
        || crate::text::ends_with_str(name, ".py") || crate::text::ends_with_str(name, ".pl")
        || crate::text::ends_with_str(name, ".rb") || crate::text::ends_with_str(name, ".lua")
        || crate::text::ends_with_str(name, ".js") || crate::text::ends_with_str(name, ".ts") {
        return None;
    }
    let sheb_absent = match shebang {
        Some(b) => !b,
        None => false,
    };
    if is_exec && sheb_absent {
        return Some(TargetKind::Executable);
    }
    None
}

/// Whether a directory name is left out of the artifact scan: the
/// tool's own metadata directory and common VCS or build-cache
/// directories.
pub open spec fn spec_skip_dir(name: Seq<char>) -> bool {
    name == ".c2rust"@ || name == "target"@ || name == ".git"@ || name == "node_modules"@
}

/// Decides whether the scan skips this directory.
pub fn should_skip_dir(name: &str) -> (r: bool)
    ensures
        r == spec_skip_dir(name@),
{
    str_eq(name, ".c2rust") || str_eq(name, "target") || str_eq(name, ".git") || str_eq(
        name,
        "node_modules",
    )
}

/// One regular file met by the artifact scan: its path relative to the
/// project root, its execute bit, and whether it starts with the
/// interpreter signature (`None` when unreadable).
pub struct ScanRecord {
    pub rel_path: String,
    pub is_executable: bool,
    pub shebang: Option<bool>,
}

/// Whether a scan record classifies as a binary target.
pub open spec fn record_is_target(rec: ScanRecord) -> bool {
    spec_classify(basename_of(rec.rel_path@), rec.is_executable, rec.shebang) is Some
}

/// The authoritative target list: the relative paths of the scanned
/// files that classify as binary targets, sorted and deduplicated. The
/// result depends on the scan alone, so stale entries of any earlier
/// list cannot survive.
pub fn process_targets_list(records: &Vec<ScanRecord>) -> (r: Vec<String>)
    ensures
        strings_sorted(r@),
        forall|a: int, b: int| 0 <= a < b < r@.len() ==> (#[trigger] r@[a]@) != (#[trigger] r@[b]@),
        forall|x: Seq<char>|
            spec_contains_str(r@, x) <==> exists|k: int|
                {
                    &&& 0 <= k < records@.len()
                    &&& (#[trigger] records@[k]).rel_path@ == x
                    &&& record_is_target(records@[k])
                },
{
    let mut found: Vec<String> = Vec::new();
    let mut k: usize = 0;
    while k < records.len()
        invariant
            k <= records@.len(),
            forall|x: Seq<char>|
                (#[trigger] spec_contains_str(found@, x)) <==> exists|k2: int|
                    {
                        &&& 0 <= k2 < k
                        &&& (#[trigger] records@[k2]).rel_path@ == x
                        &&& record_is_target(records@[k2])
                    },
        decreases records@.len() - k,
    {
        let rec = &records[k];
        let name = crate::text::basename_exec(rec.rel_path.as_str());
        let cls = classify_target(name.as_str(), rec.is_executable, rec.shebang);
        let ghost pre = found@;
        if cls.is_some() {
            found.push(rec.rel_path.clone());
            proof {
                assert(found@[found@.len() - 1]@ == records@[k as int].rel_path@);
                assert forall|x: Seq<char>|
                    (#[trigger] spec_contains_str(found@, x)) implies exists|k2: int|
                    {
                        &&& 0 <= k2 < k + 1
                        &&& (#[trigger] records@[k2]).rel_path@ == x
                        &&& record_is_target(records@[k2])
                    } by {
                    let a = choose|a: int| 0 <= a < found@.len() && found@[a]@ == x;
                    if a < pre.len() {
                        assert(spec_contains_str(pre, x)) by {
                            assert(pre[a]@ == x);
                        }
                    } else {
                        assert(records@[k as int].rel_path@ == x && record_is_target(
                            records@[k as int],
                        ));
                    }
                }
                assert forall|x: Seq<char>|
                    (exists|k2: int|
                        {
                            &&& 0 <= k2 < k + 1
                            &&& (#[trigger] records@[k2]).rel_path@ == x
                            &&& record_is_target(records@[k2])
                        }) implies (#[trigger] spec_contains_str(found@, x)) by {
                    let k2 = choose|k2: int|
                        {
                            &&& 0 <= k2 < k + 1
                            &&& (#[trigger] records@[k2]).rel_path@ == x
                            &&& record_is_target(records@[k2])
                        };
                    if k2 < k {
                        assert(spec_contains_str(pre, x));
                        let a = choose|a: int| 0 <= a < pre.len() && pre[a]@ == x;
                        assert(found@[a]@ == x);
                    } else {
                        assert(found@[found@.len() - 1]@ == x);
                    }
                }
            }
        } else {
            proof {
                assert forall|x: Seq<char>|
                    (#[trigger] spec_contains_str(found@, x)) <==> exists|k2: int|
                        {
                            &&& 0 <= k2 < k + 1
                            &&& (#[trigger] records@[k2]).rel_path@ == x
                            &&& record_is_target(records@[k2])
                        } by {
                    if exists|k2: int|
                        {
                            &&& 0 <= k2 < k + 1
                            &&& (#[trigger] records@[k2]).rel_path@ == x
                            &&& record_is_target(records@[k2])
                        } {
                        let k2 = choose|k2: int|
                            {
                                &&& 0 <= k2 < k + 1
                                &&& (#[trigger] records@[k2]).rel_path@ == x
                                &&& record_is_target(records@[k2])
                            };
                        assert(k2 < k);
                    }
                }
            }
        }
        k = k + 1;
    }
    let tmp = sort_strings(&found);
    let out = dedup_sorted(&tmp);
    proof {
        assert forall|x: Seq<char>|
            spec_contains_str(out@, x) <==> spec_contains_str(found@, x) by {
            crate::text::lemma_views_contains(found@, x);
            crate::text::lemma_views_contains(tmp@, x);
            vstd::seq_lib::to_multiset_contains(views(found@), x);
            vstd::seq_lib::to_multiset_contains(views(tmp@), x);
        }
    }
    out
}

/// The targets named by the stored list: each line trimmed, empty lines
/// and `#` comments skipped, and later duplicates dropped so first-seen
/// order is kept. `seen` holds what was already taken.
pub open spec fn targets_acc(lines: Seq<Seq<char>>, seen: Seq<Seq<char>>) -> Seq<Seq<char>>
    decreases lines.len(),
{
    if lines.len() == 0 {
        Seq::empty()
    } else {
        let l = trim_spec(lines.first());
        if l.len() == 0 || l[0] == '#' || seen.contains(l) {
            targets_acc(lines.drop_first(), seen)
        } else {
            seq![l] + targets_acc(lines.drop_first(), seen.push(l))
        }
    }
}

/// The target list parsed from the file's whole content.
pub open spec fn spec_targets(content: Seq<char>) -> Seq<Seq<char>> {
    targets_acc(split_lines_spec(content), Seq::empty())
}

/// Parses the content of a stored target list. Returns the targets in
/// first-seen order, deduplicated; an error exactly when no valid
/// target line is present.
pub fn read_targets_list(content: &str) -> (r: Result<Vec<String>, Error>)
    ensures
        r matches Ok(v) ==> views(v@) == spec_targets(content@) && v@.len() > 0,
        r is Err <==> spec_targets(content@).len() == 0,
        r matches Err(e) ==> e matches Error::NoTargetsFound(_),
{
    let lines = split_lines(content);
    let ghost slines = split_lines_spec(content@);
    let mut out: Vec<String> = Vec::new();
    let mut i: usize = 0;
    proof {
        assert(slines.skip(0) =~= slines);
        assert(views(out@) =~= Seq::<Seq<char>>::empty());
        assert(targets_acc(slines, Seq::empty()) =~= views(out@) + targets_acc(
            slines.skip(0),
            views(out@),
        ));
    }
    while i < lines.len()
        invariant
            i <= lines@.len(),
            lines@.len() == slines.len(),
            forall|j: int| 0 <= j < lines@.len() ==> (#[trigger] lines@[j]@) == slines[j],
            targets_acc(slines, Seq::empty()) == views(out@) + targets_acc(
                slines.skip(i as int),
                views(out@),
            ),
        decreases lines@.len() - i,
    {
        let ghost rem = slines.skip(i as int);
        proof {
            assert(rem.first() == slines[i as int]);
            assert(rem.drop_first() =~= slines.skip(i + 1));
        }
        let t = trim_exec(lines[i].as_str());
        let tlen = t.as_str().unicode_len();
        let skip_line = tlen == 0 || t.as_str().get_char(0) == '#' || contains_str(
            &out,
            t.as_str(),
        );
        if skip_line {
            proof {
                if t@.len() > 0 && t@[0] != '#' {
                    let a = choose|a: int| 0 <= a < out@.len() && out@[a]@ == t@;
                    assert(views(out@)[a] == t@);
                    assert(views(out@).contains(t@));
                }
            }
        } else {
            let ghost pre = views(out@);
            proof {
                if pre.contains(t@) {
                    let a = choose|a: int| 0 <= a < pre.len() && pre[a] == t@;
                    assert(out@[a]@ == t@);
                }
            }
            out.push(t);
            proof {
                assert(views(out@) =~= pre.push(trim_spec(rem.first())));
                assert(pre + (seq![trim_spec(rem.first())] + targets_acc(
                    slines.skip(i + 1),
                    pre.push(trim_spec(rem.first())),
                )) =~= views(out@) + targets_acc(slines.skip(i + 1), views(out@)));
            }
        }
        i = i + 1;
    }
    proof {
        assert(slines.skip(i as int).len() == 0);
        assert(targets_acc(slines.skip(i as int), views(out@)) =~= Seq::<Seq<char>>::empty());
        assert(views(out@) + Seq::<Seq<char>>::empty() =~= views(out@));
        assert(views(out@) == spec_targets(content@));
    }
    if out.len() == 0 {
        Err(Error::NoTargetsFound(String::from_str("No valid targets found in targets.list")))
    } else {
        Ok(out)
    }
}

/// Parses the operator's one-based target choice against `total`
/// targets. `Ok` holds the zero-based index exactly when the trimmed
/// input is a decimal number between 1 and `total`; everything else is
/// an `InvalidInput` error.
pub fn parse_target_selection(input: &str, total: usize) -> (r: Result<usize, Error>)
    ensures
        r is Ok <==> ({
            let t = trim_spec(input@);
            &&& t.len() > 0
            &&& all_digits(t)
            &&& digits_val(t) <= usize::MAX
            &&& 1 <= digits_val(t) <= total
        }),
        r matches Ok(i) ==> i + 1 == digits_val(trim_spec(input@)),
        r matches Err(e) ==> e matches Error::InvalidInput(_),
{
    let t = trim_exec(input);
    if t.as_str().unicode_len() == 0 {
        return Err(
            Error::InvalidInput(String::from_str("No input provided. Please select a target.")),
        );
    }
    match crate::text::parse_usize(t.as_str()) {
        None => {
            let mut m = String::from_str("Invalid number: ");
            m.append(t.as_str());
            Err(Error::InvalidInput(m))
        },
        Some(v) => {
            if v < 1 || v > total {
                let mut m = String::from_str("Selection ");
                m.append(to_decimal(v).as_str());
                m.append(" is out of bounds (valid: 1-");
                m.append(to_decimal(total).as_str());
                m.append(")");
                Err(Error::InvalidInput(m))
            } else {
                Ok(v - 1)
            }
        },
    }
}

} // verus!
