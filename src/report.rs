use vstd::prelude::*;
use vstd::string::StringExecFns;

verus! {

/// The decimal digit for `d`, which is below ten.
pub open spec fn digit_char(d: nat) -> char {
    if d == 0 {
        '0'
    } else if d == 1 {
        '1'
    } else if d == 2 {
        '2'
    } else if d == 3 {
        '3'
    } else if d == 4 {
        '4'
    } else if d == 5 {
        '5'
    } else if d == 6 {
        '6'
    } else if d == 7 {
        '7'
    } else if d == 8 {
        '8'
    } else {
        '9'
    }
}

/// `n` written in decimal, without leading zeros.
pub open spec fn decimal(n: nat) -> Seq<char>
    decreases n,
{
    if n < 10 {
        seq![digit_char(n)]
    } else {
        decimal(n / 10) + seq![digit_char(n % 10)]
    }
}

/// The summary line: "<n> directory" or "<n> directories", a comma, then
/// "<m> file" or "<m> files"; the singular goes with exactly one.
pub open spec fn report_text(dirs: nat, files: nat) -> Seq<char> {
    decimal(dirs) + (if dirs == 1 {
        " directory"@
    } else {
        " directories"@
    }) + ", "@ + decimal(files) + (if files == 1 {
        " file"@
    } else {
        " files"@
    })
}

fn digit_str(d: usize) -> (r: &'static str)
    requires
        d < 10,
    ensures
        r@ == seq![digit_char(d as nat)],
{
    proof {
        reveal_strlit("0");
        reveal_strlit("1");
        reveal_strlit("2");
        reveal_strlit("3");
        reveal_strlit("4");
        reveal_strlit("5");
        reveal_strlit("6");
        reveal_strlit("7");
        reveal_strlit("8");
        reveal_strlit("9");
    }
    if d == 0 {
        "0"
    } else if d == 1 {
        "1"
    } else if d == 2 {
        "2"
    } else if d == 3 {
        "3"
    } else if d == 4 {
        "4"
    } else if d == 5 {
        "5"
    } else if d == 6 {
        "6"
    } else if d == 7 {
        "7"
    } else if d == 8 {
        "8"
    } else {
        "9"
    }
}

/// Appends `n` in decimal to `out`.
fn append_decimal(out: &mut String, n: usize)
    ensures
        final(out)@ == old(out)@ + decimal(n as nat),
    decreases n,
{
    if n >= 10 {
        append_decimal(out, n / 10);
    }
    out.append(digit_str(n % 10));
    proof {
        if n >= 10 {
            assert(final(out)@ =~= old(out)@ + decimal(n as nat));
        }
    }
}

/// Running counts of the directories and files met below the roots.
pub struct Report {
    num_dirs: usize,
    num_files: usize,
}

impl Report {
    pub closed spec fn dirs(&self) -> nat {
        self.num_dirs as nat
    }

    pub closed spec fn files(&self) -> nat {
        self.num_files as nat
    }

    pub fn new() -> (r: Self)
        ensures
            r.dirs() == 0,
            r.files() == 0,
    {
        Report { num_dirs: 0, num_files: 0 }
    }

    pub fn num_dirs(&self) -> (r: usize)
        ensures
            r == self.dirs(),
    {
        self.num_dirs
    }

    pub fn num_files(&self) -> (r: usize)
        ensures
            r == self.files(),
    {
        self.num_files
    }

    /// Counts one entry, as a directory or as a file, unless it is a root.
    pub fn add(&mut self, toplevel: bool, is_dir: bool)
        requires
            !toplevel && is_dir ==> old(self).dirs() < usize::MAX,
            !toplevel && !is_dir ==> old(self).files() < usize::MAX,
        ensures
            final(self).dirs() == old(self).dirs() + if !toplevel && is_dir {
                1nat
            } else {
                0nat
            },
            final(self).files() == old(self).files() + if !toplevel && !is_dir {
                1nat
            } else {
                0nat
            },
    {
        if !toplevel {
            if is_dir {
                self.num_dirs = self.num_dirs + 1;
            } else {
                self.num_files = self.num_files + 1;
            }
        }
    }

    /// The summary line.
    pub fn to_string(&self) -> (r: String)
        ensures
            r@ == report_text(self.dirs(), self.files()),
    {
        let mut out = String::new();
        append_decimal(&mut out, self.num_dirs);
        if self.num_dirs == 1 {
            out.append(" directory");
        } else {
            out.append(" directories");
        }
        out.append(", ");
        append_decimal(&mut out, self.num_files);
        if self.num_files == 1 {
            out.append(" file");
        } else {
            out.append(" files");
        }
        out
    }
}

} // verus!
