//! Preprocessing support: the argument list handed to the system
//! preprocessor, and the paths under which preprocessed output is
//! stored.
use vstd::prelude::*;

use crate::text::{basename_exec, basename_of, is_prefix, views};

verus! {

/// A preprocessed file: where the original source lives and where its
/// preprocessed form was written.
#[derive(Debug, Clone)]
pub struct PreprocessedFile {
    pub original_path: String,
    pub preprocessed_path: String,
}

/// The compiler flags that matter for preprocessing, drawn from a raw
/// argument list (the compiler name already dropped): `-I`, `-D`, `-U`
/// and `-include` in split form keep their argument, combined forms and
/// `-std` pass through, `-c` is dropped, and `-o` is dropped with its
/// argument.
pub open spec fn preprocess_flags(args: Seq<Seq<char>>) -> Seq<Seq<char>>
    decreases args.len(),
{
    if args.len() == 0 {
        Seq::empty()
    } else {
        let a = args.first();
        if a == "-c"@ {
            preprocess_flags(args.drop_first())
        } else if a == "-o"@ {
            if args.len() >= 2 {
                preprocess_flags(args.skip(2))
            } else {
                Seq::empty()
            }
        } else if a == "-I"@ || a == "-D"@ || a == "-U"@ || a == "-include"@ {
            if args.len() >= 2 {
                seq![a, args[1]] + preprocess_flags(args.skip(2))
            } else {
                seq![a]
            }
        } else if is_prefix("-I"@, a) || is_prefix("-D"@, a) || is_prefix("-U"@, a) || is_prefix(
            "-std"@,
            a,
        ) || is_prefix("-include"@, a) {
            seq![a] + preprocess_flags(args.drop_first())
        } else {
            preprocess_flags(args.drop_first())
        }
    }
}

/// The full preprocessor invocation: `-E`, the relevant flags, the
/// input file, and `-o` with the output file.
pub open spec fn spec_preprocess_args(
    args: Seq<Seq<char>>,
    input: Seq<char>,
    output: Seq<char>,
) -> Seq<Seq<char>> {
    seq!["-E"@] + (if args.len() <= 1 {
        Seq::<Seq<char>>::empty()
    } else {
        preprocess_flags(args.skip(1))
    }) + seq![input, "-o"@, output]
}

/// Builds the preprocessor argument list from a compiler invocation,
/// handling both combined (`-Iinclude/`) and split (`-I include/`) flag
/// forms and replacing the original output with ours.
pub fn build_preprocess_args(
    compiler_args: &Vec<String>,
    input_file: &str,
    output_file: &str,
) -> (r: Vec<String>)
    ensures
        views(r@) == spec_preprocess_args(views(compiler_args@), input_file@, output_file@),
{
    let ghost full = if views(compiler_args@).len() <= 1 {
        Seq::<Seq<char>>::empty()
    } else {
        views(compiler_args@).skip(1)
    };
    let mut out: Vec<String> = Vec::new();
    out.push(String::from_str("-E"));
    let mut i: usize = 1;
    proof {
        if compiler_args@.len() > 1 {
            assert(full.skip(0) =~= full);
        }
        assert(views(out@) =~= seq!["-E"@]);
    }
    while i < compiler_args.len()
        invariant
            1 <= i,
            i <= compiler_args@.len() || i == 1,
            full == (if views(compiler_args@).len() <= 1 {
                Seq::<Seq<char>>::empty()
            } else {
                views(compiler_args@).skip(1)
            }),
            compiler_args@.len() > 1 ==> i <= compiler_args@.len() && seq!["-E"@]
                + preprocess_flags(full) == views(out@) + preprocess_flags(
                full.skip(i - 1),
            ),
            compiler_args@.len() <= 1 ==> views(out@) == seq!["-E"@],
        decreases compiler_args@.len() - i,
    {
        let ghost rem = full.skip(i - 1);
        proof {
            assert(rem.first() == compiler_args@[i as int]@);
            assert(rem.drop_first() =~= full.skip(i as int));
        }
        let tok = compiler_args[i].as_str();
        if crate::text::str_eq(tok, "-c") {
            i = i + 1;
            continue;
        }
        if crate::text::str_eq(tok, "-o") {
            if i + 1 < compiler_args.len() {
                proof {
                    assert(rem.len() >= 2);
                    assert(rem.skip(2) =~= full.skip(i + 1));
                }
                i = i + 2;
            } else {
                proof {
                    assert(rem.len() <= 1);
                    if rem.len() >= 2 {
                        assert(false);
                    }
                    assert(preprocess_flags(rem) =~= Seq::<Seq<char>>::empty());
                    assert(full.skip(full.len() as int).len() == 0);
                    assert(preprocess_flags(full.skip(full.len() as int))
                        =~= Seq::<Seq<char>>::empty());
                }
                i = compiler_args.len();
            }
            continue;
        }
        let split_form = crate::text::str_eq(tok, "-I") || crate::text::str_eq(tok, "-D")
            || crate::text::str_eq(tok, "-U") || crate::text::str_eq(tok, "-include");
        if split_form {
            let ghost pre = views(out@);
            out.push(compiler_args[i].clone());
            if i + 1 < compiler_args.len() {
                out.push(compiler_args[i + 1].clone());
                proof {
                    assert(rem.len() >= 2);
                    assert(rem[1] == compiler_args@[i + 1]@);
                    assert(views(out@) =~= pre.push(rem.first()).push(rem[1]));
                    assert(rem.skip(2) =~= full.skip(i + 1));
                    assert(pre + (seq![rem.first(), rem[1]] + preprocess_flags(rem.skip(2)))
                        =~= views(out@) + preprocess_flags(full.skip(i + 1)));
                }
                i = i + 2;
            } else {
                proof {
                    assert(rem.len() == 1);
                    assert(views(out@) =~= pre.push(rem.first()));
                    assert(pre + seq![rem.first()] =~= views(out@));
                    assert(full.skip(full.len() as int).len() == 0);
                    assert(preprocess_flags(full.skip(full.len() as int))
                        =~= Seq::<Seq<char>>::empty());
                    assert(views(out@) + preprocess_flags(full.skip(full.len() as int))
                        =~= views(out@));
                }
                i = compiler_args.len();
            }
            continue;
        }
        let combined = crate::text::starts_with_str(tok, "-I") || crate::text::starts_with_str(
            tok,
            "-D",
        ) || crate::text::starts_with_str(tok, "-U") || crate::text::starts_with_str(tok, "-std")
            || crate::text::starts_with_str(tok, "-include");
        if combined {
            let ghost pre = views(out@);
            out.push(compiler_args[i].clone());
            proof {
                assert(views(out@) =~= pre.push(rem.first()));
                assert(pre + (seq![rem.first()] + preprocess_flags(rem.drop_first()))
                    =~= views(out@) + preprocess_flags(full.skip(i as int)));
            }
        }
        i = i + 1;
    }
    proof {
        if compiler_args@.len() > 1 {
            assert(full.skip(i - 1).len() == 0);
            assert(preprocess_flags(full.skip(i - 1)) =~= Seq::<Seq<char>>::empty());
            assert(views(out@) + Seq::<Seq<char>>::empty() =~= views(out@));
            assert(views(out@) =~= seq!["-E"@] + preprocess_flags(full));
        }
    }
    let ghost mid = views(out@);
    out.push(String::from_str(input_file));
    out.push(String::from_str("-o"));
    out.push(String::from_str(output_file));
    proof {
        assert(views(out@) =~= mid + seq![input_file@, "-o"@, output_file@]);
        assert(views(out@) =~= spec_preprocess_args(
            views(compiler_args@),
            input_file@,
            output_file@,
        ));
    }
    out
}

/// A path with `.c2rust` appended to its file name; a path without a
/// file name (empty, or ending in `.` or `..`) is left unchanged.
pub open spec fn add_suffix_spec(p: Seq<char>) -> Seq<char> {
    let b = basename_of(p);
    if b.len() == 0 || b == seq!['.'] || b == seq!['.', '.'] {
        p
    } else {
        p + ".c2rust"@
    }
}

/// Appends the `.c2rust` suffix to the file name of a path.
pub fn add_c2rust_suffix(path: &str) -> (r: String)
    ensures
        r@ == add_suffix_spec(path@),
{
    let b = basename_exec(path);
    let blen = b.as_str().unicode_len();
    let no_name = blen == 0 || (blen == 1 && b.as_str().get_char(0) == '.') || (blen == 2
        && b.as_str().get_char(0) == '.' && b.as_str().get_char(1) == '.');
    proof {
        if blen == 1 && b@[0] == '.' {
            assert(b@ =~= seq!['.']);
        }
        if blen == 2 && b@[0] == '.' && b@[1] == '.' {
            assert(b@ =~= seq!['.', '.']);
        }
        if b@ == seq!['.'] {
            assert(b@.len() == 1 && b@[0] == '.');
        }
        if b@ == seq!['.', '.'] {
            assert(b@.len() == 2 && b@[0] == '.' && b@[1] == '.');
        }
    }
    if no_name {
        String::from_str(path)
    } else {
        let mut s = String::from_str(path);
        s.append(".c2rust");
        s
    }
}

/// Where the preprocessed form of `file_path` is stored: under the
/// feature's `c` directory, mirroring the original layout. An absolute
/// path under the project root keeps its relative part; any other
/// absolute path loses only its leading slash.
pub open spec fn rel_for_output(fp: Seq<char>, root: Seq<char>) -> Seq<char> {
    if fp.len() > 0 && fp[0] == '/' {
        if is_prefix(root, fp) && fp.len() > root.len() && fp[root.len() as int] == '/' {
            fp.skip(root.len() as int + 1)
        } else {
            fp.skip(1)
        }
    } else {
        fp
    }
}

pub open spec fn spec_output_path(root: Seq<char>, feature: Seq<char>, fp: Seq<char>) -> Seq<char> {
    add_suffix_spec(root + "/.c2rust/"@ + feature + "/c/"@ + rel_for_output(fp, root))
}

/// Builds the output path for a preprocessed file.
pub fn preprocess_output_path(project_root: &str, feature: &str, file_path: &str) -> (r: String)
    ensures
        r@ == spec_output_path(project_root@, feature@, file_path@),
{
    let fplen = file_path.unicode_len();
    let rootlen = project_root.unicode_len();
    let rel: String = if fplen > 0 && file_path.get_char(0) == '/' {
        if crate::text::starts_with_str(file_path, project_root) && fplen > rootlen
            && file_path.get_char(rootlen) == '/' {
            let cut = file_path.substring_char(rootlen + 1, fplen);
            proof {
                assert(cut@ =~= file_path@.skip(project_root@.len() as int + 1));
            }
            String::from_str(cut)
        } else {
            let cut = file_path.substring_char(1, fplen);
            proof {
                assert(cut@ =~= file_path@.skip(1));
            }
            String::from_str(cut)
        }
    } else {
        String::from_str(file_path)
    };
    let mut joined = String::from_str(project_root);
    joined.append("/.c2rust/");
    joined.append(feature);
    joined.append("/c/");
    joined.append(rel.as_str());
    add_c2rust_suffix(joined.as_str())
}

} // verus!
