//! Backup roots: a location is either a path on the local machine or a
//! host-qualified path reached over a remote command transport. A single
//! string is parsed by scanning for the first character that could not be
//! part of a host identifier: if that character is a colon, the prefix is
//! the host and the remainder the remote path; otherwise the whole string
//! is a local path.
use vstd::prelude::*;

verus! {

/// A character that may appear in a host identifier: an ASCII alphanumeric,
/// `-`, `.` or `@`.
pub open spec fn plain_char(c: char) -> bool {
    let u = c as u32;
    u == ('-' as u32) || u == ('.' as u32) || u == ('@' as u32)
    || (('0' as u32) <= u && u <= ('9' as u32))
    || (('a' as u32) <= u && u <= ('z' as u32))
    || (('A' as u32) <= u && u <= ('Z' as u32))
}

/// The position of the first character that cannot belong to a host
/// identifier, if any.
pub open spec fn first_special(s: Seq<char>) -> Option<int>
    decreases s.len(),
{
    if s.len() == 0 {
        Option::None
    } else if !plain_char(s[0]) {
        Option::Some(0int)
    } else {
        match first_special(s.drop_first()) {
            Option::Some(j) => Option::Some(j + 1),
            Option::None => Option::None,
        }
    }
}

/// One backup root.
pub enum Loc {
    Local { path: String },
    Ssh { path: String, colon: usize },
}

/// The stored string of a location.
pub open spec fn loc_path(l: Loc) -> Seq<char> {
    match l {
        Loc::Local { path } => path@,
        Loc::Ssh { path, .. } => path@,
    }
}

/// For a remote location, the position of the colon separating host and
/// path.
pub open spec fn loc_colon(l: Loc) -> int {
    match l {
        Loc::Local { .. } => 0,
        Loc::Ssh { colon, .. } => colon as int,
    }
}

/// A remote location carries a well-placed colon: it sits inside the
/// string, and everything before it could be part of a host identifier.
pub open spec fn loc_wf(l: Loc) -> bool {
    match l {
        Loc::Local { .. } => true,
        Loc::Ssh { path, colon } => (colon as int) < path@.len()
            && path@[colon as int] == ':'
            && (forall|j: int| 0 <= j < colon as int ==> plain_char(path@[j])),
    }
}

/// The directory path on the machine that holds the backup root.
pub open spec fn fs_root_of(l: Loc) -> Seq<char> {
    match l {
        Loc::Local { path } => path@,
        Loc::Ssh { path, colon } => path@.subrange(colon + 1, path@.len() as int),
    }
}

/// A string denotes a remote location exactly when its first
/// non-host-identifier character is a colon.
pub open spec fn denotes_remote(s: Seq<char>) -> bool {
    first_special(s) matches Option::Some(j) && s[j] == ':'
}

proof fn lemma_first_special_at(s: Seq<char>, k: int)
    requires
        0 <= k <= s.len(),
        forall|j: int| 0 <= j < k ==> plain_char(s[j]),
        k < s.len() ==> !plain_char(s[k]),
    ensures
        first_special(s) == if k == s.len() {
            Option::<int>::None
        } else {
            Option::<int>::Some(k)
        },
    decreases s.len(),
{
    if s.len() == 0 {
    } else if !plain_char(s[0]) {
        assert(k == 0);
    } else {
        let rest = s.drop_first();
        assert(forall|j: int| 0 <= j < k - 1 ==> rest[j] == s[j + 1] && plain_char(rest[j]));
        if k - 1 < rest.len() {
            assert(rest[k - 1] == s[k]);
        }
        lemma_first_special_at(rest, k - 1);
    }
}

fn is_plain_char(c: char) -> (b: bool)
    ensures
        b == plain_char(c),
{
    let u = c as u32;
    u == ('-' as u32) || u == ('.' as u32) || u == ('@' as u32)
    || (('0' as u32) <= u && u <= ('9' as u32))
    || (('a' as u32) <= u && u <= ('z' as u32))
    || (('A' as u32) <= u && u <= ('Z' as u32))
}

/// The path of `base` extended by one relative component: a separator is
/// added unless the base is empty or already ends with one.
pub open spec fn joined(base: Seq<char>, name: Seq<char>) -> Seq<char> {
    if base.len() == 0 {
        name
    } else if base[base.len() - 1] == '/' {
        base + name
    } else {
        base + seq!['/'] + name
    }
}

/// Append a relative path component to a path string.
pub fn join_path(base: &str, name: &str) -> (r: String)
    ensures
        r@ == joined(base@, name@),
{
    let n = base.unicode_len();
    if n == 0 {
        return String::from_str(name);
    }
    let mut out = String::from_str(base);
    let last = base.get_char(n - 1);
    if !(last as u32 == '/' as u32) {
        out.append("/");
        proof {
            reveal_strlit("/");
            assert(("/")@ =~= seq!['/']);
        }
    }
    out.append(name);
    proof {
        if base@[base@.len() - 1] == '/' {
        } else {
            assert(out@ =~= base@ + seq!['/'] + name@);
        }
    }
    out
}

/// The lines of a listing output, split at every newline: what
/// `split('\n')` yields, as sequences of characters.
pub open spec fn lines_of(s: Seq<char>) -> Seq<Seq<char>>
    decreases s.len(),
{
    if s.len() == 0 {
        seq![Seq::empty()]
    } else if s.last() == '\n' {
        lines_of(s.drop_last()).push(Seq::empty())
    } else {
        let rest = lines_of(s.drop_last());
        rest.update(rest.len() - 1, rest.last().push(s.last()))
    }
}

proof fn lemma_lines_of_len(s: Seq<char>)
    ensures
        lines_of(s).len() >= 1,
    decreases s.len(),
{
    if s.len() == 0 {
    } else {
        lemma_lines_of_len(s.drop_last());
    }
}

/// Split a listing into its lines.
pub fn split_lines(s: &str) -> (res: Vec<String>)
    ensures
        res@.len() == lines_of(s@).len(),
        forall|k: int| 0 <= k < res@.len() ==> #[trigger] res@[k]@ == lines_of(s@)[k],
{
    let n = s.unicode_len();
    let mut out: Vec<String> = Vec::new();
    let mut start: usize = 0;
    let mut idx: usize = 0;
    proof {
        assert(s@.subrange(0, 0) =~= Seq::<char>::empty());
        assert(lines_of(s@.subrange(0, 0)) =~= seq![Seq::<char>::empty()]);
    }
    while idx < n
        invariant
            0 <= start <= idx <= n,
            n == s@.len(),
            lines_of(s@.subrange(0, idx as int)).len() == out@.len() + 1,
            forall|k: int| 0 <= k < out@.len()
                ==> #[trigger] out@[k]@ == lines_of(s@.subrange(0, idx as int))[k],
            lines_of(s@.subrange(0, idx as int)).last() == s@.subrange(start as int, idx as int),
        decreases n - idx,
    {
        let c = s.get_char(idx);
        let ghost prefix = s@.subrange(0, idx as int);
        let ghost prefix2 = s@.subrange(0, idx as int + 1);
        proof {
            assert(prefix2.drop_last() =~= prefix);
            assert(prefix2.last() == s@[idx as int]);
            lemma_lines_of_len(prefix);
        }
        if c as u32 == '\n' as u32 {
            proof {
                assert(c == '\n') by {
                    assert('\n' as u32 == 10);
                }
                assert(lines_of(prefix2) == lines_of(prefix).push(Seq::<char>::empty()));
            }
            let piece = s.substring_char(start, idx);
            out.push(String::from_str(piece));
            start = idx + 1;
            proof {
                assert(s@.subrange(start as int, idx as int + 1) =~= Seq::<char>::empty());
            }
        } else {
            proof {
                assert(c != '\n') by {
                    assert('\n' as u32 == 10);
                }
                let rest = lines_of(prefix);
                assert(lines_of(prefix2) ==
                    rest.update(rest.len() - 1, rest.last().push(s@[idx as int])));
                assert(rest.last().push(s@[idx as int])
                    =~= s@.subrange(start as int, idx as int + 1));
                assert(forall|k: int| 0 <= k < out@.len()
                    ==> #[trigger] out@[k]@ == lines_of(prefix2)[k]);
            }
        }
        idx = idx + 1;
    }
    proof {
        assert(s@.subrange(0, n as int) =~= s@);
    }
    let piece = s.substring_char(start, n);
    out.push(String::from_str(piece));
    out
}

impl Loc {
    /// Parse a location string. Total: any string that does not name a
    /// remote host falls back to a local path.
    pub fn parse(s: &str) -> (r: Loc)
        ensures
            loc_wf(r),
            loc_path(r) == s@,
            (r is Ssh) == denotes_remote(s@),
            r is Ssh ==> Option::Some(loc_colon(r)) == first_special(s@),
    {
        let n = s.unicode_len();
        let mut idx: usize = 0;
        while idx < n
            invariant
                0 <= idx <= n,
                n == s@.len(),
                forall|j: int| 0 <= j < idx ==> plain_char(s@[j]),
            decreases n - idx,
        {
            let c = s.get_char(idx);
            if !is_plain_char(c) {
                proof {
                    lemma_first_special_at(s@, idx as int);
                }
                if c as u32 == ':' as u32 {
                    proof {
                        assert((c as u32 == ':' as u32) ==> c == ':') by {
                            assert(':' as u32 == 58);
                        }
                    }
                    return Loc::Ssh { path: String::from_str(s), colon: idx };
                } else {
                    proof {
                        assert(s@[idx as int] != ':') by {
                            assert(':' as u32 == 58);
                        }
                    }
                    return Loc::Local { path: String::from_str(s) };
                }
            }
            idx = idx + 1;
        }
        proof {
            lemma_first_special_at(s@, n as int);
        }
        Loc::Local { path: String::from_str(s) }
    }

    /// The location as the single string the external tools expect.
    pub fn as_str(&self) -> (r: &str)
        ensures
            r@ == loc_path(*self),
    {
        match self {
            Loc::Local { path } => path.as_str(),
            Loc::Ssh { path, .. } => path.as_str(),
        }
    }

    /// A location for a relative path under this one, on the same backend.
    pub fn join(&self, suffix: &str) -> (r: Loc)
        requires
            loc_wf(*self),
        ensures
            loc_wf(r),
            (r is Ssh) == (*self is Ssh),
            loc_path(r) == joined(loc_path(*self), suffix@),
            r is Ssh ==> loc_colon(r) == loc_colon(*self),
    {
        match self {
            Loc::Local { path } => Loc::Local { path: join_path(path.as_str(), suffix) },
            Loc::Ssh { path, colon } => {
                let p = join_path(path.as_str(), suffix);
                proof {
                    assert(forall|j: int| 0 <= j <= *colon ==> p@[j] == path@[j]);
                }
                Loc::Ssh { path: p, colon: *colon }
            },
        }
    }

    /// The host identifier of a remote location: the text before the colon.
    pub fn host(&self) -> (r: String)
        requires
            loc_wf(*self),
            *self is Ssh,
        ensures
            r@ == loc_path(*self).subrange(0, loc_colon(*self)),
    {
        match self {
            Loc::Ssh { path, colon } => {
                let sub = path.as_str().substring_char(0, *colon);
                String::from_str(sub)
            },
            Loc::Local { .. } => {
                proof {
                    assert(false);
                }
                String::new()
            },
        }
    }

    /// The directory path on the machine that holds the backup root: the
    /// whole string for a local location, the text after the colon for a
    /// remote one.
    pub fn fs_root(&self) -> (r: String)
        requires
            loc_wf(*self),
        ensures
            r@ == fs_root_of(*self),
    {
        match self {
            Loc::Local { path } => String::from_str(path.as_str()),
            Loc::Ssh { path, colon } => {
                let n = path.as_str().unicode_len();
                let sub = path.as_str().substring_char(*colon + 1, n);
                String::from_str(sub)
            },
        }
    }

    /// The move command a remote rename issues, without the host word:
    /// both entry names resolved under the backup root.
    pub fn remote_rename_args(&self, from: &str, to: &str) -> (args: Vec<String>)
        requires
            loc_wf(*self),
            *self is Ssh,
        ensures
            args@.len() == 3,
            args@[0]@ == "mv"@,
            args@[1]@ == joined(fs_root_of(*self), from@),
            args@[2]@ == joined(fs_root_of(*self), to@),
    {
        let root = self.fs_root();
        let mut args: Vec<String> = Vec::new();
        args.push(String::from_str("mv"));
        args.push(join_path(root.as_str(), from));
        args.push(join_path(root.as_str(), to));
        args
    }

    /// The arguments of the symbolic-link command, shared by both
    /// backends: force-replace without dereferencing, the target verbatim,
    /// the link placed under the backup root.
    pub fn link_args(&self, link_name: &str, target: &str) -> (args: Vec<String>)
        requires
            loc_wf(*self),
        ensures
            args@.len() == 5,
            args@[0]@ == "--force"@,
            args@[1]@ == "--no-dereference"@,
            args@[2]@ == "--symbolic"@,
            args@[3]@ == target@,
            args@[4]@ == joined(fs_root_of(*self), link_name@),
    {
        let root = self.fs_root();
        let mut args: Vec<String> = Vec::new();
        args.push(String::from_str("--force"));
        args.push(String::from_str("--no-dereference"));
        args.push(String::from_str("--symbolic"));
        args.push(String::from_str(target));
        args.push(join_path(root.as_str(), link_name));
        args
    }

    /// The listing command a remote location issues, without the host
    /// word: one entry per line.
    pub fn remote_list_args(&self) -> (args: Vec<String>)
        requires
            loc_wf(*self),
            *self is Ssh,
        ensures
            args@.len() == 3,
            args@[0]@ == "ls"@,
            args@[1]@ == "-1"@,
            args@[2]@ == fs_root_of(*self),
    {
        let mut args: Vec<String> = Vec::new();
        args.push(String::from_str("ls"));
        args.push(String::from_str("-1"));
        args.push(self.fs_root());
        args
    }

    /// The removal command a remote location issues, without the host
    /// word: one recursive, forced deletion carrying every name resolved
    /// under the backup root.
    pub fn remote_remove_args(&self, names: &Vec<String>) -> (args: Vec<String>)
        requires
            loc_wf(*self),
            *self is Ssh,
        ensures
            args@.len() == 2 + names@.len(),
            args@[0]@ == "rm"@,
            args@[1]@ == "-rf"@,
            forall|k: int| 0 <= k < names@.len()
                ==> args@[2 + k]@ == joined(fs_root_of(*self), names@[k]@),
    {
        let root = self.fs_root();
        let mut args: Vec<String> = Vec::new();
        args.push(String::from_str("rm"));
        args.push(String::from_str("-rf"));
        let mut k: usize = 0;
        while k < names.len()
            invariant
                k <= names.len(),
                args@.len() == 2 + k,
                args@[0]@ == "rm"@,
                args@[1]@ == "-rf"@,
                root@ == fs_root_of(*self),
                forall|w: int| 0 <= w < k
                    ==> args@[2 + w]@ == joined(fs_root_of(*self), names@[w]@),
            decreases names.len() - k,
        {
            args.push(join_path(root.as_str(), names[k].as_str()));
            k = k + 1;
        }
        args
    }
}

} // verus!
