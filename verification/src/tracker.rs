//! The compilation database: entries observed while a tracked build ran,
//! and the parser for the shim-produced compile log.
use vstd::prelude::*;

use crate::shell::{shell_split, shell_split_of};
use crate::text::{is_prefix, views};

verus! {

/// One observed compilation: the working directory at invocation time,
/// the compiled source file as passed on the command line, and either an
/// argument list or a single command string (split on demand).
#[derive(Debug, Clone)]
pub struct CompileEntry {
    pub directory: String,
    pub file: String,
    pub arguments: Option<Vec<String>>,
    pub command: Option<String>,
}

/// Whether `s` ends in the tracked source extension `.c`.
pub open spec fn ends_dot_c(s: Seq<char>) -> bool {
    s.len() >= 2 && s[s.len() - 2] == '.' && s[s.len() - 1] == 'c'
}

/// The first non-flag token ending in `.c`, if any.
pub open spec fn spec_extract_c(args: Seq<Seq<char>>) -> Option<Seq<char>>
    decreases args.len(),
{
    if args.len() == 0 {
        None
    } else {
        let a = args.first();
        if a.len() > 0 && a[0] == '-' {
            spec_extract_c(args.drop_first())
        } else if ends_dot_c(a) {
            Some(a)
        } else {
            spec_extract_c(args.drop_first())
        }
    }
}

/// The `.c` file named by a command line, after shell-word splitting.
pub open spec fn spec_extract_c_from_command(cmd: Seq<char>) -> Option<Seq<char>> {
    match shell_split_of(cmd) {
        Some(t) => spec_extract_c(t),
        None => None,
    }
}

impl CompileEntry {
    /// The compiler arguments: the stored list where one is present,
    /// else the command string split into shell words (empty when the
    /// split fails or neither field is set).
    pub fn get_arguments(&self) -> (r: Vec<String>)
        ensures
            self.arguments matches Some(a) ==> r@ == a@,
            self.arguments is None && self.command is Some ==> (
            match shell_split_of(self.command->0@) {
                Some(ss) => views(r@) == ss,
                None => r@.len() == 0,
            }),
            self.arguments is None && self.command is None ==> r@.len() == 0,
    {
        match &self.arguments {
            Some(a) => a.clone(),
            None => match &self.command {
                Some(c) => match shell_split(c.as_str()) {
                    Some(v) => {
                        proof {
                            let ss = shell_split_of(c@)->0;
                            assert(views(v@) =~= ss);
                        }
                        v
                    },
                    None => Vec::new(),
                },
                None => Vec::new(),
            },
        }
    }

    /// The path of the compiled source file.
    pub fn get_file_path(&self) -> (r: String)
        ensures
            r@ == self.file@,
    {
        self.file.clone()
    }

    /// The invocation directory.
    pub fn get_directory(&self) -> (r: String)
        ensures
            r@ == self.directory@,
    {
        self.directory.clone()
    }
}

/// Scans shell-split tokens for the first `.c` source file; flag tokens
/// (starting with `-`) are passed over.
pub fn extract_c_file_from_tokens(args: &Vec<String>) -> (r: Option<String>)
    ensures
        r is Some <==> spec_extract_c(views(args@)) is Some,
        r matches Some(f) ==> spec_extract_c(views(args@)) == Some(f@),
{
    let ghost full = views(args@);
    let mut i: usize = 0;
    proof {
        assert(full.skip(0) =~= full);
    }
    while i < args.len()
        invariant
            i <= args@.len(),
            full == views(args@),
            spec_extract_c(full) == spec_extract_c(full.skip(i as int)),
        decreases args@.len() - i,
    {
        proof {
            assert(full.skip(i as int).first() == args@[i as int]@);
            assert(full.skip(i as int).drop_first() =~= full.skip(i + 1));
        }
        let a = args[i].as_str();
        let alen = a.unicode_len();
        let is_flag = alen > 0 && a.get_char(0) == '-';
        if !is_flag && alen >= 2 && a.get_char(alen - 2) == '.' && a.get_char(alen - 1) == 'c' {
            return Some(String::from_str(a));
        }
        i = i + 1;
    }
    proof {
        assert(full.skip(i as int).len() == 0);
    }
    None
}

/// The `.c` file compiled by `cmd`, if its shell words name one.
pub fn extract_c_file_from_command(cmd: &str) -> (r: Option<String>)
    ensures
        r is Some <==> spec_extract_c_from_command(cmd@) is Some,
        r matches Some(f) ==> spec_extract_c_from_command(cmd@) == Some(f@),
{
    match shell_split(cmd) {
        Some(args) => {
            proof {
                let ss = shell_split_of(cmd@)->0;
                assert(views(args@) =~= ss);
            }
            extract_c_file_from_tokens(&args)
        },
        None => None,
    }
}

/// The `(directory, file, command)` triples that a shim log yields: a
/// record is emitted at each `---` delimiter for which both a `DIR:` and
/// a `CMD:` line were seen and the command names a `.c` file; the
/// pending state is cleared after every delimiter.
pub open spec fn spec_parse_log(
    lines: Seq<Seq<char>>,
    dir: Seq<char>,
    cmd: Seq<char>,
) -> Seq<(Seq<char>, Seq<char>, Seq<char>)>
    decreases lines.len(),
{
    if lines.len() == 0 {
        Seq::empty()
    } else {
        let l = lines.first();
        let rest = lines.drop_first();
        if is_prefix(seq!['D', 'I', 'R', ':'], l) {
            spec_parse_log(rest, l.skip(4), cmd)
        } else if is_prefix(seq!['C', 'M', 'D', ':'], l) {
            spec_parse_log(rest, dir, l.skip(4))
        } else if l == seq!['-', '-', '-'] && dir.len() > 0 && cmd.len() > 0 {
            match spec_extract_c_from_command(cmd) {
                Some(f) => seq![(dir, f, cmd)] + spec_parse_log(
                    rest,
                    Seq::empty(),
                    Seq::empty(),
                ),
                None => spec_parse_log(rest, Seq::empty(), Seq::empty()),
            }
        } else {
            spec_parse_log(rest, dir, cmd)
        }
    }
}

/// The essentials of an entry built by the log parser.
pub open spec fn abs_entry(e: CompileEntry) -> (Seq<char>, Seq<char>, Seq<char>) {
    (
        e.directory@,
        e.file@,
        if e.command is Some {
            e.command->0@
        } else {
            Seq::empty()
        },
    )
}

pub open spec fn entries_abs(s: Seq<CompileEntry>) -> Seq<(Seq<char>, Seq<char>, Seq<char>)> {
    s.map_values(|e: CompileEntry| abs_entry(e))
}

/// Decides whether an equal entry (same directory, file and command)
/// was already collected.
fn has_entry(out: &Vec<CompileEntry>, d: &str, f: &str, c: &str) -> (r: bool)
    requires
        forall|k: int|
            0 <= k < out@.len() ==> (#[trigger] out@[k].arguments) is None && out@[k].command
                is Some,
    ensures
        r == entries_abs(out@).contains((d@, f@, c@)),
{
    let ghost t = (d@, f@, c@);
    let mut k: usize = 0;
    while k < out.len()
        invariant
            k <= out@.len(),
            t == (d@, f@, c@),
            forall|k2: int|
                0 <= k2 < out@.len() ==> (#[trigger] out@[k2].arguments) is None
                    && out@[k2].command is Some,
            forall|k2: int| 0 <= k2 < k ==> #[trigger] entries_abs(out@)[k2] != t,
        decreases out@.len() - k,
    {
        let e = &out[k];
        let dir_eq = crate::text::str_eq(e.directory.as_str(), d);
        let file_eq = crate::text::str_eq(e.file.as_str(), f);
        let cmd_eq = match &e.command {
            Some(cc) => crate::text::str_eq(cc.as_str(), c),
            None => false,
        };
        proof {
            assert(entries_abs(out@)[k as int] == abs_entry(out@[k as int]));
            assert((out@[k as int].arguments) is None && out@[k as int].command is Some);
        }
        if dir_eq && file_eq && cmd_eq {
            proof {
                assert(entries_abs(out@)[k as int] == t);
            }
            return true;
        }
        proof {
            assert(entries_abs(out@)[k as int] != t);
        }
        k = k + 1;
    }
    proof {
        if entries_abs(out@).contains(t) {
            let w = choose|w: int|
                0 <= w < entries_abs(out@).len() && entries_abs(out@)[w] == t;
            assert(entries_abs(out@)[w] != t);
        }
    }
    false
}

/// Parses the shim log, already split into lines, into compilation
/// entries. The result is the record list with later duplicates
/// dropped: the first occurrence of each entry is kept, in log order.
/// Each entry carries its raw command string and no argument list.
pub fn parse_compile_log(lines: &Vec<String>) -> (r: Vec<CompileEntry>)
    ensures
        entries_abs(r@) == crate::text::dedup_keep_first(
            spec_parse_log(views(lines@), Seq::empty(), Seq::empty()),
        ),
        forall|k: int|
            0 <= k < r@.len() ==> (#[trigger] r@[k].arguments) is None && r@[k].command is Some,
{
    let ghost full = views(lines@);
    let ghost mut raw: Seq<(Seq<char>, Seq<char>, Seq<char>)> = Seq::empty();
    let mut out: Vec<CompileEntry> = Vec::new();
    let mut dir: String = String::new();
    let mut cmd: String = String::new();
    let mut i: usize = 0;
    proof {
        assert(full.skip(0) =~= full);
        assert(entries_abs(out@) =~= Seq::<(Seq<char>, Seq<char>, Seq<char>)>::empty());
        assert(crate::text::dedup_keep_first(raw) =~= Seq::<(
            Seq<char>,
            Seq<char>,
            Seq<char>,
        )>::empty());
        assert(dir@ =~= Seq::<char>::empty());
        assert(cmd@ =~= Seq::<char>::empty());
    }
    while i < lines.len()
        invariant
            i <= lines@.len(),
            full == views(lines@),
            spec_parse_log(full, Seq::empty(), Seq::empty()) == raw + spec_parse_log(
                full.skip(i as int),
                dir@,
                cmd@,
            ),
            entries_abs(out@) == crate::text::dedup_keep_first(raw),
            forall|k: int|
                0 <= k < out@.len() ==> (#[trigger] out@[k].arguments) is None
                    && out@[k].command is Some,
        decreases lines@.len() - i,
    {
        proof {
            assert(full.skip(i as int).first() == lines@[i as int]@);
            assert(full.skip(i as int).drop_first() =~= full.skip(i + 1));
            reveal_strlit("DIR:");
            reveal_strlit("CMD:");
            reveal_strlit("---");
            assert("DIR:"@ =~= seq!['D', 'I', 'R', ':']);
            assert("CMD:"@ =~= seq!['C', 'M', 'D', ':']);
            assert("---"@ =~= seq!['-', '-', '-']);
        }
        let l = lines[i].as_str();
        let llen = l.unicode_len();
        if crate::text::starts_with_str(l, "DIR:") {
            let rest = l.substring_char(4, llen);
            dir = String::from_str(rest);
            proof {
                assert(dir@ =~= lines@[i as int]@.skip(4));
            }
        } else if crate::text::starts_with_str(l, "CMD:") {
            let rest = l.substring_char(4, llen);
            cmd = String::from_str(rest);
            proof {
                assert(cmd@ =~= lines@[i as int]@.skip(4));
            }
        } else if crate::text::str_eq(l, "---") && dir.as_str().unicode_len() > 0
            && cmd.as_str().unicode_len() > 0 {
            let ghost pre_out = out@;
            let ghost pre_dir = dir@;
            let ghost pre_cmd = cmd@;
            let ghost pre_raw = raw;
            match extract_c_file_from_command(cmd.as_str()) {
                Some(f) => {
                    let ghost t = (pre_dir, spec_extract_c_from_command(pre_cmd)->0, pre_cmd);
                    let dup = has_entry(&out, dir.as_str(), f.as_str(), cmd.as_str());
                    proof {
                        raw = raw.push(t);
                        assert(raw.drop_last() =~= pre_raw);
                        assert(raw.last() == t);
                        assert(pre_raw + (seq![t] + spec_parse_log(
                            full.skip(i + 1),
                            Seq::empty(),
                            Seq::empty(),
                        )) =~= raw + spec_parse_log(full.skip(i + 1), Seq::empty(), Seq::empty()));
                        assert(dup == crate::text::dedup_keep_first(pre_raw).contains(t));
                    }
                    if !dup {
                        let entry = CompileEntry {
                            directory: dir,
                            file: f,
                            arguments: None,
                            command: Some(cmd),
                        };
                        out.push(entry);
                        proof {
                            assert(entries_abs(out@) =~= entries_abs(pre_out).push(t));
                            assert(crate::text::dedup_keep_first(raw)
                                == crate::text::dedup_keep_first(pre_raw).push(t));
                        }
                    } else {
                        proof {
                            assert(crate::text::dedup_keep_first(raw)
                                == crate::text::dedup_keep_first(pre_raw));
                        }
                    }
                },
                None => {
                },
            }
            dir = String::new();
            cmd = String::new();
            proof {
                assert(dir@ =~= Seq::<char>::empty());
                assert(cmd@ =~= Seq::<char>::empty());
            }
        } else {
        }
        i = i + 1;
    }
    proof {
        assert(full.skip(i as int).len() == 0);
        assert(raw + Seq::<(Seq<char>, Seq<char>, Seq<char>)>::empty() =~= raw);
        assert(spec_parse_log(full, Seq::empty(), Seq::empty()) == raw);
    }
    out
}

/// Whether a command line invokes `make`, bare or by absolute path.
pub open spec fn is_make_invocation(cmd: Seq<Seq<char>>) -> bool {
    cmd.len() > 0 && crate::text::basename_of(cmd[0]) == "make"@
}

/// Whether some argument is a `VERBOSE=` variable assignment. Only a
/// true assignment counts: an argument that merely contains the
/// substring `VERBOSE` does not.
pub open spec fn has_verbose_assignment(cmd: Seq<Seq<char>>) -> bool {
    exists|i: int| 1 <= i < cmd.len() && is_prefix("VERBOSE="@, #[trigger] cmd[i])
}

/// Appends `VERBOSE=1` to a `make` invocation that lacks one, so that
/// default recipes echo the compiler lines the log extraction depends
/// on; any other command is returned unchanged.
pub fn ensure_verbose(command: &Vec<String>) -> (r: Vec<String>)
    ensures
        is_make_invocation(views(command@)) && !has_verbose_assignment(views(command@))
            ==> views(r@) == views(command@) + seq!["VERBOSE=1"@],
        !(is_make_invocation(views(command@)) && !has_verbose_assignment(views(command@)))
            ==> views(r@) == views(command@),
{
    let mut out = crate::text::clone_strings(command);
    proof {
        assert(views(out@) =~= views(command@));
    }
    if command.len() == 0 {
        return out;
    }
    let base = crate::text::basename_exec(command[0].as_str());
    if !crate::text::str_eq(base.as_str(), "make") {
        proof {
            assert(!is_make_invocation(views(command@)));
        }
        return out;
    }
    let mut i: usize = 1;
    while i < command.len()
        invariant
            1 <= i,
            i <= command@.len() || i == 1,
            views(out@) == views(command@),
            forall|j: int| 1 <= j < i ==> !is_prefix("VERBOSE="@, #[trigger] views(command@)[j]),
        decreases command@.len() - i,
    {
        if crate::text::starts_with_str(command[i].as_str(), "VERBOSE=") {
            proof {
                assert(is_prefix("VERBOSE="@, views(command@)[i as int]));
            }
            return out;
        }
        i = i + 1;
    }
    proof {
        assert(!has_verbose_assignment(views(command@)));
    }
    let ghost pre = views(out@);
    out.push(String::from_str("VERBOSE=1"));
    proof {
        assert(views(out@) =~= pre.push("VERBOSE=1"@));
        assert(views(out@) =~= views(command@) + seq!["VERBOSE=1"@]);
    }
    out
}

/// The shim script installed ahead of a real compiler: it appends one
/// locked `DIR:`/`CMD:`/`---` record to the shared log, then hands
/// control to the real compiler unchanged.
pub open spec fn spec_wrapper_script(
    compiler: Seq<char>,
    log_path: Seq<char>,
    real_compiler: Seq<char>,
) -> Seq<char> {
    "#!/bin/bash\n# Log this compilation with file locking for parallel builds\n{\n  flock 200\n  echo \"DIR:$(pwd)\" >&200\n  echo \"CMD:"@
        + compiler + " $@\" >&200\n  echo \"---\" >&200\n} 200>>\""@ + log_path
        + "\"\n# Execute the real compiler using absolute path\nexec \""@ + real_compiler
        + "\" \"$@\"\n"@
}

/// Renders the shim script for one compiler.
pub fn build_wrapper_script(compiler: &str, log_path: &str, real_compiler: &str) -> (r: String)
    ensures
        r@ == spec_wrapper_script(compiler@, log_path@, real_compiler@),
{
    let mut s = String::from_str(
        "#!/bin/bash\n# Log this compilation with file locking for parallel builds\n{\n  flock 200\n  echo \"DIR:$(pwd)\" >&200\n  echo \"CMD:",
    );
    s.append(compiler);
    s.append(" $@\" >&200\n  echo \"---\" >&200\n} 200>>\"");
    s.append(log_path);
    s.append("\"\n# Execute the real compiler using absolute path\nexec \"");
    s.append(real_compiler);
    s.append("\" \"$@\"\n");
    s
}

/// Keeps only the entries whose file ends in `.c`; wrapper shims log
/// several compiler names, and not every logged invocation compiles a
/// tracked source.
pub fn filter_c_entries(entries: Vec<CompileEntry>) -> (r: Vec<CompileEntry>)
    ensures
        r@ == entries@.filter(|e: CompileEntry| ends_dot_c(e.file@)),
{
    let ghost orig = entries@;
    let ghost pred = |e: CompileEntry| ends_dot_c(e.file@);
    let mut rest = entries;
    let mut out: Vec<CompileEntry> = Vec::new();
    let ghost mut i: int = 0;
    proof {
        reveal(Seq::filter);
        assert(orig.take(0) =~= Seq::<CompileEntry>::empty());
        assert(out@ =~= orig.take(0).filter(pred));
        assert(rest@ =~= orig.skip(0));
    }
    while rest.len() > 0
        invariant
            0 <= i <= orig.len(),
            pred == (|e: CompileEntry| ends_dot_c(e.file@)),
            rest@ == orig.skip(i),
            out@ == orig.take(i).filter(pred),
        decreases rest@.len(),
    {
        proof {
            reveal(Seq::filter);
            assert(orig.take(i + 1).drop_last() =~= orig.take(i));
            assert(orig.take(i + 1).last() == orig[i]);
            assert(orig.skip(i)[0] == orig[i]);
        }
        let e = rest.remove(0);
        proof {
            assert(rest@ =~= orig.skip(i + 1));
        }
        let flen = e.file.as_str().unicode_len();
        let keep = flen >= 2 && e.file.as_str().get_char(flen - 2) == '.'
            && e.file.as_str().get_char(flen - 1) == 'c';
        if keep {
            assert(ends_dot_c(orig[i].file@));
            out.push(e);
            proof {
                assert(out@ =~= orig.take(i + 1).filter(pred));
            }
        } else {
            assert(!ends_dot_c(orig[i].file@));
        }
        proof {
            i = i + 1;
        }
    }
    proof {
        assert(orig.skip(i).len() == 0);
        assert(orig.take(i) =~= orig);
    }
    out
}

} // verus!
