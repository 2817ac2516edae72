//! The command grammar of the external configuration tool, and the
//! parsing of what it prints. The tool itself runs as a subprocess
//! outside this library; these functions fix exactly which arguments
//! are handed to it.
use vstd::prelude::*;

use crate::text::{trim_exec, trim_spec, views};

verus! {

/// The arguments that set `key` to `value`: `config --make
/// [--feature F] --set KEY VALUE`.
pub open spec fn spec_config_set_args(
    feature: Option<Seq<char>>,
    key: Seq<char>,
    value: Seq<char>,
) -> Seq<Seq<char>> {
    seq!["config"@, "--make"@] + (match feature {
        Some(f) => seq!["--feature"@, f],
        None => Seq::<Seq<char>>::empty(),
    }) + seq!["--set"@, key, value]
}

/// Builds the `--set` invocation of the configuration tool.
pub fn config_set_args(feature: Option<&str>, key: &str, value: &str) -> (r: Vec<String>)
    ensures
        views(r@) == spec_config_set_args(
            match feature {
                Some(f) => Some(f@),
                None => None,
            },
            key@,
            value@,
        ),
{
    let mut out: Vec<String> = Vec::new();
    out.push(String::from_str("config"));
    out.push(String::from_str("--make"));
    match feature {
        Some(f) => {
            out.push(String::from_str("--feature"));
            out.push(String::from_str(f));
        },
        None => {},
    }
    out.push(String::from_str("--set"));
    out.push(String::from_str(key));
    out.push(String::from_str(value));
    proof {
        match feature {
            Some(f) => {
                assert(views(out@) =~= spec_config_set_args(Some(f@), key@, value@));
            },
            None => {
                assert(views(out@) =~= spec_config_set_args(
                    None::<Seq<char>>,
                    key@,
                    value@,
                ));
            },
        }
    }
    out
}

/// The arguments that list `key`: `config --make [--feature F] --list KEY`.
pub open spec fn spec_config_list_args(feature: Option<Seq<char>>, key: Seq<char>) -> Seq<
    Seq<char>,
> {
    seq!["config"@, "--make"@] + (match feature {
        Some(f) => seq!["--feature"@, f],
        None => Seq::<Seq<char>>::empty(),
    }) + seq!["--list"@, key]
}

/// Builds the `--list` invocation of the configuration tool.
pub fn config_list_args(feature: Option<&str>, key: &str) -> (r: Vec<String>)
    ensures
        views(r@) == spec_config_list_args(
            match feature {
                Some(f) => Some(f@),
                None => None,
            },
            key@,
        ),
{
    let mut out: Vec<String> = Vec::new();
    out.push(String::from_str("config"));
    out.push(String::from_str("--make"));
    match feature {
        Some(f) => {
            out.push(String::from_str("--feature"));
            out.push(String::from_str(f));
        },
        None => {},
    }
    out.push(String::from_str("--list"));
    out.push(String::from_str(key));
    proof {
        match feature {
            Some(f) => {
                assert(views(out@) =~= spec_config_list_args(Some(f@), key@));
            },
            None => {
                assert(views(out@) =~= spec_config_list_args(None::<Seq<char>>, key@));
            },
        }
    }
    out
}

/// The arguments that append values under `key`: `config --make --add
/// KEY VALUES.. [--feature F]`.
pub open spec fn spec_config_add_args(
    key: Seq<char>,
    values: Seq<Seq<char>>,
    feature: Option<Seq<char>>,
) -> Seq<Seq<char>> {
    seq!["config"@, "--make"@, "--add"@, key] + values + (match feature {
        Some(f) => seq!["--feature"@, f],
        None => Seq::<Seq<char>>::empty(),
    })
}

/// Builds the `--add` invocation of the configuration tool.
pub fn config_add_args(key: &str, values: &Vec<String>, feature: Option<&str>) -> (r: Vec<String>)
    ensures
        views(r@) == spec_config_add_args(
            key@,
            views(values@),
            match feature {
                Some(f) => Some(f@),
                None => None,
            },
        ),
{
    let mut out: Vec<String> = Vec::new();
    out.push(String::from_str("config"));
    out.push(String::from_str("--make"));
    out.push(String::from_str("--add"));
    out.push(String::from_str(key));
    let mut i: usize = 0;
    proof {
        assert(views(out@) =~= seq!["config"@, "--make"@, "--add"@, key@] + views(
            values@.subrange(0, 0),
        ));
        assert(views(values@.subrange(0, 0)) =~= Seq::<Seq<char>>::empty());
    }
    while i < values.len()
        invariant
            i <= values@.len(),
            views(out@) == seq!["config"@, "--make"@, "--add"@, key@] + views(
                values@.subrange(0, i as int),
            ),
        decreases values@.len() - i,
    {
        let ghost pre = views(out@);
        out.push(values[i].clone());
        proof {
            assert(views(out@) =~= pre.push(values@[i as int]@));
            assert(views(values@.subrange(0, i + 1)) =~= views(
                values@.subrange(0, i as int),
            ).push(values@[i as int]@));
        }
        i = i + 1;
    }
    proof {
        assert(values@.subrange(0, i as int) =~= values@);
    }
    let ghost mid = views(out@);
    match feature {
        Some(f) => {
            out.push(String::from_str("--feature"));
            out.push(String::from_str(f));
            proof {
                assert(views(out@) =~= mid + seq!["--feature"@, f@]);
            }
        },
        None => {
            proof {
                assert(views(out@) =~= mid + Seq::<Seq<char>>::empty());
            }
        },
    }
    out
}

/// The arguments that list a key of the global configuration:
/// `config --global --list KEY`.
pub open spec fn spec_config_global_list_args(key: Seq<char>) -> Seq<Seq<char>> {
    seq!["config"@, "--global"@, "--list"@, key]
}

/// Builds the global `--list` invocation of the configuration tool.
pub fn config_global_list_args(key: &str) -> (r: Vec<String>)
    ensures
        views(r@) == spec_config_global_list_args(key@),
{
    let mut out: Vec<String> = Vec::new();
    out.push(String::from_str("config"));
    out.push(String::from_str("--global"));
    out.push(String::from_str("--list"));
    out.push(String::from_str(key));
    proof {
        assert(views(out@) =~= spec_config_global_list_args(key@));
    }
    out
}

/// The non-empty trimmed lines of the tool's output: the configured
/// compiler names.
pub open spec fn spec_compiler_lines(lines: Seq<Seq<char>>) -> Seq<Seq<char>>
    decreases lines.len(),
{
    if lines.len() == 0 {
        Seq::empty()
    } else {
        spec_compiler_lines(lines.drop_last()) + (if trim_spec(lines.last()).len() > 0 {
            seq![trim_spec(lines.last())]
        } else {
            Seq::<Seq<char>>::empty()
        })
    }
}

/// Parses the configured compiler list from the tool's raw output.
pub fn parse_compiler_list(output: &str) -> (r: Vec<String>)
    ensures
        views(r@) == spec_compiler_lines(crate::text::split_lines_spec(output@)),
{
    let ghost slines = crate::text::split_lines_spec(output@);
    let lines = crate::text::split_lines(output);
    let mut out: Vec<String> = Vec::new();
    let mut i: usize = 0;
    proof {
        assert(slines.take(0) =~= Seq::<Seq<char>>::empty());
        assert(views(out@) =~= spec_compiler_lines(slines.take(0)));
    }
    while i < lines.len()
        invariant
            i <= lines@.len(),
            lines@.len() == slines.len(),
            forall|j: int| 0 <= j < lines@.len() ==> (#[trigger] lines@[j]@) == slines[j],
            views(out@) == spec_compiler_lines(slines.take(i as int)),
        decreases lines@.len() - i,
    {
        proof {
            assert(slines.take(i + 1).drop_last() =~= slines.take(i as int));
            assert(slines.take(i + 1).last() == slines[i as int]);
        }
        let ghost pre = views(out@);
        let t = trim_exec(lines[i].as_str());
        if t.as_str().unicode_len() > 0 {
            out.push(t);
            proof {
                assert(views(out@) =~= pre.push(trim_spec(slines[i as int])));
            }
        } else {
            proof {
                assert(views(out@) =~= pre + Seq::<Seq<char>>::empty());
            }
        }
        i = i + 1;
    }
    proof {
        assert(slines.take(i as int) =~= slines);
    }
    out
}

} // verus!
