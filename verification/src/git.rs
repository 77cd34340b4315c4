//! Ingest by what git tracks: which directories are repositories, which files count.

use crate::paths::{
    begins_with, components, extension, extension_dot, join, last_dot, parts, parts_view, same_path, spec_extension, spec_join,
    spec_starts_with, starts_with, PartView, PathPart,
};
use crate::text::{
    chars_of, is_space, lemma_trimmed, lemma_trimmed_is, same_text, string_of, trim, trimmed,
};
use vstd::prelude::*;

verus! {

/// What the entry `.git` of a directory makes of it.
#[derive(Clone, Copy, Debug, PartialEq, Eq, Structural)]
pub enum RepoMarker {
    Repo,
    Submodule,
}

/// What was found at the entry `.git` of a directory.
#[derive(Clone, Debug)]
pub enum GitEntry {
    /// There is no such entry.
    Missing,
    /// A directory; `has_head` says whether it holds a file `HEAD`.
    Directory { has_head: bool },
    /// A file, with its text.
    File { text: String },
    /// Something else.
    Other,
}

/// A file `.git` that does not point to a directory.
#[derive(Clone, Copy, Debug, PartialEq, Eq, Structural)]
pub struct InvalidPointer;

/// Whether there is a component `.git` with a component `modules` as the next name:
/// where git keeps the repositories of submodules.
pub open spec fn submodule_from(parts: Seq<PartView>, after_git: bool) -> bool
    decreases parts.len(),
{
    if parts.len() == 0 {
        false
    } else {
        match parts[0] {
            PartView::Normal(name) => if after_git && name == "modules"@ {
                true
            } else {
                submodule_from(parts.skip(1), name == ".git"@)
            },
            _ => submodule_from(parts.skip(1), after_git),
        }
    }
}

/// Whether a path lies in the repository of a submodule.
pub open spec fn points_to_submodule(path: Seq<char>) -> bool {
    submodule_from(parts(path), false)
}

/// Whether `gitdir` lies in the repository of a submodule.
pub fn gitdir_points_to_submodule(gitdir: &str) -> (yes: bool)
    ensures
        yes == points_to_submodule(gitdir@),
{
    let list: Vec<PathPart> = components(gitdir);
    let ghost views = parts_view(list@);
    let mut after_git = false;
    let mut i: usize = 0;
    proof {
        assert(views.skip(0) =~= views);
    }
    while i < list.len()
        invariant
            i <= list.len(),
            views == parts_view(list@),
            views == parts(gitdir@),
            submodule_from(views, false) == submodule_from(views.skip(i as int), after_git),
        decreases list.len() - i,
    {
        proof {
            assert(views.skip(i as int)[0] == list@[i as int]@);
            assert(views.skip(i as int).skip(1) =~= views.skip(i + 1));
        }
        match &list[i] {
            PathPart::Normal(name) => {
                if after_git && same_text(name.as_str(), "modules") {
                    return true;
                }
                after_git = same_text(name.as_str(), ".git");
            },
            _ => {},
        }
        i = i + 1;
    }
    false
}

/// The text after `gitdir:`, without white space around it.
pub open spec fn pointer_target(text: Seq<char>) -> Option<Seq<char>> {
    let prefix = "gitdir:"@;
    let inner = trimmed(text);
    if prefix.len() <= inner.len() && inner.take(prefix.len() as int) == prefix {
        let target = trimmed(inner.skip(prefix.len() as int));
        if target.len() > 0 {
            Some(target)
        } else {
            None
        }
    } else {
        None
    }
}

/// The directory that a file `.git` in `dir` points to.
pub fn parse_gitdir_pointer(dir: &str, text: &str) -> (result: Result<String, InvalidPointer>)
    ensures
        match result {
            Ok(gitdir) => pointer_target(text@) matches Some(target) && gitdir@ == spec_join(
                dir@,
                target,
            ),
            Err(_) => pointer_target(text@) is None,
        },
{
    let chars: Vec<char> = chars_of(text);
    let prefix: Vec<char> = chars_of("gitdir:");
    let inner: &[char] = trim(chars.as_slice());
    if prefix.len() > inner.len() {
        return Err(InvalidPointer);
    }
    let mut i: usize = 0;
    while i < prefix.len()
        invariant
            i <= prefix.len() <= inner.len(),
            prefix@ == "gitdir:"@,
            inner@ == trimmed(text@),
            forall|j: int| 0 <= j < i ==> inner@[j] == prefix@[j],
        decreases prefix.len() - i,
    {
        if inner[i] != prefix[i] {
            proof {
                assert(inner@.take(prefix@.len() as int)[i as int] != prefix@[i as int]);
            }
            return Err(InvalidPointer);
        }
        i = i + 1;
    }
    let rest: &[char] = vstd::slice::slice_subrange(inner, i, inner.len());
    proof {
        assert(inner@.take(prefix@.len() as int) =~= prefix@);
        assert(rest@ =~= inner@.skip(prefix@.len() as int));
    }
    let target: &[char] = trim(rest);
    if target.len() == 0 {
        return Err(InvalidPointer);
    }
    Ok(join(dir, string_of(target).as_str()))
}

/// What a directory is, by its entry `.git`.
pub open spec fn spec_repo_marker(dir: Seq<char>, entry: GitEntry) -> Result<
    Option<RepoMarker>,
    InvalidPointer,
> {
    match entry {
        GitEntry::Missing => Ok(None),
        GitEntry::Directory { has_head } => if has_head {
            Ok(Some(RepoMarker::Repo))
        } else {
            Ok(None)
        },
        GitEntry::File { text } => match pointer_target(text@) {
            Some(target) => if points_to_submodule(spec_join(dir, target)) {
                Ok(Some(RepoMarker::Submodule))
            } else {
                Ok(Some(RepoMarker::Repo))
            },
            None => Err(InvalidPointer),
        },
        GitEntry::Other => Ok(None),
    }
}

/// Decides what a directory is, by its entry `.git`.
pub fn detect_repo_marker(dir: &str, entry: &GitEntry) -> (marker: Result<
    Option<RepoMarker>,
    InvalidPointer,
>)
    ensures
        marker == spec_repo_marker(dir@, *entry),
{
    match entry {
        GitEntry::Missing => Ok(None),
        GitEntry::Directory { has_head } => if *has_head {
            Ok(Some(RepoMarker::Repo))
        } else {
            Ok(None)
        },
        GitEntry::File { text } => match parse_gitdir_pointer(dir, text.as_str()) {
            Ok(gitdir) => if gitdir_points_to_submodule(gitdir.as_str()) {
                Ok(Some(RepoMarker::Submodule))
            } else {
                Ok(Some(RepoMarker::Repo))
            },
            Err(error) => Err(error),
        },
        GitEntry::Other => Ok(None),
    }
}

/// What `git rev-parse --show-toplevel` printed, read as a path: `None` where it failed
/// or printed nothing.
pub open spec fn spec_enclosing_root(success: bool, printed: Seq<char>) -> Option<Seq<char>> {
    if success && trimmed(printed).len() > 0 {
        Some(trimmed(printed))
    } else {
        None
    }
}

/// The root of the repository around a directory, from what git printed.
pub fn enclosing_repo_root(success: bool, printed: &str) -> (root: Option<String>)
    ensures
        match root {
            Some(root) => spec_enclosing_root(success, printed@) == Some(root@),
            None => spec_enclosing_root(success, printed@) is None,
        },
{
    if !success {
        return None;
    }
    let chars: Vec<char> = chars_of(printed);
    let inner: &[char] = trim(chars.as_slice());
    if inner.len() == 0 {
        return None;
    }
    Some(string_of(inner))
}

/// The number of bytes before the first zero byte.
pub open spec fn entry_length(bytes: Seq<u8>) -> nat
    decreases bytes.len(),
{
    if bytes.len() == 0 || bytes[0] == 0 {
        0
    } else {
        1 + entry_length(bytes.skip(1))
    }
}

/// The entries between zero bytes that are not empty.
pub open spec fn path_entries(bytes: Seq<u8>) -> Seq<Seq<u8>>
    decreases bytes.len(),
{
    if bytes.len() == 0 {
        seq![]
    } else {
        let n = entry_length(bytes) as int;
        let first = if n > 0 {
            seq![bytes.take(n)]
        } else {
            seq![]
        };
        if n < bytes.len() {
            first + path_entries(bytes.skip(n + 1))
        } else {
            first
        }
    }
}

proof fn lemma_entry_length(bytes: Seq<u8>, n: int)
    requires
        0 <= n <= bytes.len(),
        forall|i: int| 0 <= i < n ==> bytes[i] != 0,
        n == bytes.len() || bytes[n] == 0,
    ensures
        entry_length(bytes) == n,
    decreases n,
{
    if n > 0 {
        let rest = bytes.skip(1);
        assert forall|i: int| 0 <= i < n - 1 implies rest[i] != 0 by {
            assert(rest[i] == bytes[i + 1]);
        }
        lemma_entry_length(rest, n - 1);
    }
}

pub open spec fn entries_view(entries: Seq<Vec<u8>>) -> Seq<Seq<u8>> {
    entries.map_values(|entry: Vec<u8>| entry@)
}

/// The paths that `git ls-files -z` printed, as bytes.
pub fn parse_git_path_list(stdout: &[u8]) -> (paths: Vec<Vec<u8>>)
    ensures
        entries_view(paths@) == path_entries(stdout@),
{
    let ghost all = stdout@;
    let mut paths: Vec<Vec<u8>> = Vec::new();
    let mut from: usize = 0;
    proof {
        assert(all.skip(0) =~= all);
        assert(entries_view(paths@) + path_entries(all) =~= path_entries(all));
    }
    while from < stdout.len()
        invariant
            all == stdout@,
            from <= stdout.len(),
            path_entries(all) == entries_view(paths@) + path_entries(all.skip(from as int)),
        decreases stdout.len() - from,
    {
        let ghost rest = all.skip(from as int);
        let mut to: usize = from;
        while to < stdout.len() && stdout[to] != 0
            invariant
                all == stdout@,
                from <= to <= stdout.len(),
                forall|i: int| from <= i < to ==> all[i] != 0,
            decreases stdout.len() - to,
        {
            to = to + 1;
        }
        let ghost before = entries_view(paths@);
        let entry: &[u8] = vstd::slice::slice_subrange(stdout, from, to);
        proof {
            lemma_entry_length(rest, to - from);
            assert(rest.take(to - from) =~= entry@);
        }
        if entry.len() > 0 {
            paths.push(vstd::slice::slice_to_vec(entry));
            proof {
                assert(entries_view(paths@) =~= before + seq![entry@]);
            }
        }
        if to < stdout.len() {
            proof {
                assert(rest.skip(to - from + 1) =~= all.skip(to + 1));
                assert(path_entries(all) =~= entries_view(paths@) + path_entries(
                    all.skip(to + 1),
                ));
            }
            from = to + 1;
        } else {
            proof {
                assert(path_entries(all) =~= entries_view(paths@) + path_entries(
                    all.skip(to as int),
                ));
            }
            from = to;
        }
    }
    proof {
        assert(path_entries(all) =~= entries_view(paths@));
    }
    paths
}

/// Whether a walk from `walk_root` goes into `path`: always into its root, and into
/// nothing that lies in a root that is skipped.
pub open spec fn spec_should_visit(
    path: Seq<char>,
    walk_root: Seq<char>,
    skipped_roots: Seq<String>,
) -> bool {
    parts(path) == parts(walk_root) || forall|i: int|
        0 <= i < skipped_roots.len() ==> !spec_starts_with(path, #[trigger] skipped_roots[i]@)
}

/// Whether a walk from `walk_root` goes into `path`.
pub fn should_visit_walk_entry(path: &str, walk_root: &str, skipped_roots: &[String]) -> (visit:
    bool)
    ensures
        visit == spec_should_visit(path@, walk_root@, skipped_roots@),
{
    if same_path(path, walk_root) {
        return true;
    }
    let mut i: usize = 0;
    while i < skipped_roots.len()
        invariant
            i <= skipped_roots.len(),
            parts(path@) != parts(walk_root@),
            forall|j: int|
                0 <= j < i ==> !spec_starts_with(path@, #[trigger] skipped_roots@[j]@),
        decreases skipped_roots.len() - i,
    {
        if starts_with(path, skipped_roots[i].as_str()) {
            return false;
        }
        i = i + 1;
    }
    true
}

/// A character with ASCII letters in lower case.
pub open spec fn lower(c: char) -> char {
    if 'A' <= c <= 'Z' {
        ((c as u32 + 32) as u8) as char
    } else {
        c
    }
}

pub open spec fn lower_text(s: Seq<char>) -> Seq<char> {
    s.map_values(|c: char| lower(c))
}

fn to_lower(s: &str) -> (lowered: String)
    ensures
        lowered@ == lower_text(s@),
{
    let chars: Vec<char> = chars_of(s);
    let mut lowered = String::new();
    let mut i: usize = 0;
    while i < chars.len()
        invariant
            i <= chars.len(),
            chars@ == s@,
            lowered@ =~= lower_text(s@).take(i as int),
        decreases chars.len() - i,
    {
        let c: char = chars[i];
        if 'A' <= c && c <= 'Z' {
            lowered.push(((c as u32 + 32) as u8) as char);
        } else {
            lowered.push(c);
        }
        i = i + 1;
    }
    lowered
}

/// The extensions of files that hold no text.
pub open spec fn binary_extension(e: Seq<char>) -> bool {
    e == "7z"@ || e == "bin"@ || e == "bz2"@ || e == "db"@ || e == "dll"@ || e == "dylib"@ || e
        == "exe"@ || e == "gif"@ || e == "gz"@ || e == "ico"@ || e == "jpeg"@ || e == "jpg"@ || e
        == "pdf"@ || e == "png"@ || e == "rar"@ || e == "so"@ || e == "sqlite"@ || e == "tar"@ || e
        == "webp"@ || e == "xz"@ || e == "zip"@
}

/// The extensions of files that are passed over, in lower case: archives, pictures,
/// databases, programs and libraries.
pub open spec fn passed_over() -> Seq<Seq<char>> {
    seq![
        seq!['7', 'z'],
        seq!['b', 'i', 'n'],
        seq!['b', 'z', '2'],
        seq!['d', 'b'],
        seq!['d', 'l', 'l'],
        seq!['d', 'y', 'l', 'i', 'b'],
        seq!['e', 'x', 'e'],
        seq!['g', 'i', 'f'],
        seq!['g', 'z'],
        seq!['i', 'c', 'o'],
        seq!['j', 'p', 'e', 'g'],
        seq!['j', 'p', 'g'],
        seq!['p', 'd', 'f'],
        seq!['p', 'n', 'g'],
        seq!['r', 'a', 'r'],
        seq!['s', 'o'],
        seq!['s', 'q', 'l', 'i', 't', 'e'],
        seq!['t', 'a', 'r'],
        seq!['w', 'e', 'b', 'p'],
        seq!['x', 'z'],
        seq!['z', 'i', 'p'],
    ]
}

/// What counts as no text by its extension is what is passed over: these names, and no
/// others.
pub proof fn lemma_passed_over(e: Seq<char>)
    ensures
        binary_extension(e) <==> seq![
            seq!['7', 'z'],
            seq!['b', 'i', 'n'],
            seq!['b', 'z', '2'],
            seq!['d', 'b'],
            seq!['d', 'l', 'l'],
            seq!['d', 'y', 'l', 'i', 'b'],
            seq!['e', 'x', 'e'],
            seq!['g', 'i', 'f'],
            seq!['g', 'z'],
            seq!['i', 'c', 'o'],
            seq!['j', 'p', 'e', 'g'],
            seq!['j', 'p', 'g'],
            seq!['p', 'd', 'f'],
            seq!['p', 'n', 'g'],
            seq!['r', 'a', 'r'],
            seq!['s', 'o'],
            seq!['s', 'q', 'l', 'i', 't', 'e'],
            seq!['t', 'a', 'r'],
            seq!['w', 'e', 'b', 'p'],
            seq!['x', 'z'],
            seq!['z', 'i', 'p'],
        ].contains(e),
        passed_over().contains(e) <==> binary_extension(e),
{
    let all = passed_over();
    reveal_strlit("7z");
    assert(all[0] =~= "7z"@);
    reveal_strlit("bin");
    assert(all[1] =~= "bin"@);
    reveal_strlit("bz2");
    assert(all[2] =~= "bz2"@);
    reveal_strlit("db");
    assert(all[3] =~= "db"@);
    reveal_strlit("dll");
    assert(all[4] =~= "dll"@);
    reveal_strlit("dylib");
    assert(all[5] =~= "dylib"@);
    reveal_strlit("exe");
    assert(all[6] =~= "exe"@);
    reveal_strlit("gif");
    assert(all[7] =~= "gif"@);
    reveal_strlit("gz");
    assert(all[8] =~= "gz"@);
    reveal_strlit("ico");
    assert(all[9] =~= "ico"@);
    reveal_strlit("jpeg");
    assert(all[10] =~= "jpeg"@);
    reveal_strlit("jpg");
    assert(all[11] =~= "jpg"@);
    reveal_strlit("pdf");
    assert(all[12] =~= "pdf"@);
    reveal_strlit("png");
    assert(all[13] =~= "png"@);
    reveal_strlit("rar");
    assert(all[14] =~= "rar"@);
    reveal_strlit("so");
    assert(all[15] =~= "so"@);
    reveal_strlit("sqlite");
    assert(all[16] =~= "sqlite"@);
    reveal_strlit("tar");
    assert(all[17] =~= "tar"@);
    reveal_strlit("webp");
    assert(all[18] =~= "webp"@);
    reveal_strlit("xz");
    assert(all[19] =~= "xz"@);
    reveal_strlit("zip");
    assert(all[20] =~= "zip"@);
    if all.contains(e) {
        let i = choose|i: int| 0 <= i < all.len() && all[i] == e;
        assert(all[i] == e);
    }
    if binary_extension(e) {
        assert(all.contains(e));
    }
}

/// Each capital letter stands for its small one, and any other character for itself.
pub proof fn lemma_lower(c: char)
    ensures
        lower('A') == 'a',
        lower('B') == 'b',
        lower('C') == 'c',
        lower('D') == 'd',
        lower('E') == 'e',
        lower('F') == 'f',
        lower('G') == 'g',
        lower('H') == 'h',
        lower('I') == 'i',
        lower('J') == 'j',
        lower('K') == 'k',
        lower('L') == 'l',
        lower('M') == 'm',
        lower('N') == 'n',
        lower('O') == 'o',
        lower('P') == 'p',
        lower('Q') == 'q',
        lower('R') == 'r',
        lower('S') == 's',
        lower('T') == 't',
        lower('U') == 'u',
        lower('V') == 'v',
        lower('W') == 'w',
        lower('X') == 'x',
        lower('Y') == 'y',
        lower('Z') == 'z',
        !seq![
            'A',
            'B',
            'C',
            'D',
            'E',
            'F',
            'G',
            'H',
            'I',
            'J',
            'K',
            'L',
            'M',
            'N',
            'O',
            'P',
            'Q',
            'R',
            'S',
            'T',
            'U',
            'V',
            'W',
            'X',
            'Y',
            'Z',
        ].contains(c) ==> lower(c) == c,
{
    let all = seq![
        'A',
        'B',
        'C',
        'D',
        'E',
        'F',
        'G',
        'H',
        'I',
        'J',
        'K',
        'L',
        'M',
        'N',
        'O',
        'P',
        'Q',
        'R',
        'S',
        'T',
        'U',
        'V',
        'W',
        'X',
        'Y',
        'Z',
    ];
    assert(all[0] == 'A');
    assert(all[1] == 'B');
    assert(all[2] == 'C');
    assert(all[3] == 'D');
    assert(all[4] == 'E');
    assert(all[5] == 'F');
    assert(all[6] == 'G');
    assert(all[7] == 'H');
    assert(all[8] == 'I');
    assert(all[9] == 'J');
    assert(all[10] == 'K');
    assert(all[11] == 'L');
    assert(all[12] == 'M');
    assert(all[13] == 'N');
    assert(all[14] == 'O');
    assert(all[15] == 'P');
    assert(all[16] == 'Q');
    assert(all[17] == 'R');
    assert(all[18] == 'S');
    assert(all[19] == 'T');
    assert(all[20] == 'U');
    assert(all[21] == 'V');
    assert(all[22] == 'W');
    assert(all[23] == 'X');
    assert(all[24] == 'Y');
    assert(all[25] == 'Z');
    if !all.contains(c) && 'A' <= c <= 'Z' {
        assert(all[c as u32 - 65] == c);
    }
}

/// A tracked file is passed over by the extension of its name, whatever the case of its
/// letters: a file of which the name ends in a full stop and one of the extensions, with
/// something before it, is, and no other.
pub proof fn lemma_extension_decides(name: Seq<char>, k: int)
    requires
        last_dot(name, k),
    ensures
        k > 0 ==> extension_dot(name) == Some(k),
        k == 0 ==> extension_dot(name) is None,
{
    assert forall|j: int| last_dot(name, j) implies j == k by {
        if j < k {
            assert(name[k] != '.');
        }
        if k < j {
            assert(name[j] != '.');
        }
    }
    if k > 0 {
        let j = extension_dot(name).unwrap();
        assert(last_dot(name, j));
    }
}

/// Whether a tracked file is passed over: its extension, in lower case, is one of
/// those of files that hold no text.
pub fn should_skip_git_candidate(path: &str) -> (skip: bool)
    ensures
        skip == (spec_extension(path@) matches Some(e) && binary_extension(lower_text(e))),
        skip == (spec_extension(path@) matches Some(e) && passed_over().contains(lower_text(e))),
{
    proof {
        if let Some(e) = spec_extension(path@) {
            lemma_passed_over(lower_text(e));
        }
    }
    match extension(path) {
        Some(found) => {
            let lowered: String = to_lower(found.as_str());
            let e: &str = lowered.as_str();
            same_text(e, "7z") || same_text(e, "bin") || same_text(e, "bz2") || same_text(e, "db")
                || same_text(e, "dll") || same_text(e, "dylib") || same_text(e, "exe")
                || same_text(e, "gif") || same_text(e, "gz") || same_text(e, "ico") || same_text(
                e,
                "jpeg",
            ) || same_text(e, "jpg") || same_text(e, "pdf") || same_text(e, "png") || same_text(
                e,
                "rar",
            ) || same_text(e, "so") || same_text(e, "sqlite") || same_text(e, "tar") || same_text(
                e,
                "webp",
            ) || same_text(e, "xz") || same_text(e, "zip")
        },
        None => false,
    }
}

/// Which parts of a directory are ingested by what git tracks, and which by walking.
#[derive(Clone, Debug, PartialEq, Eq)]
pub struct GitIngestPlan {
    /// The repositories.
    pub repo_roots: Vec<String>,
    /// Where to walk besides, if anywhere.
    pub fallback_root: Option<String>,
    /// Where the walk does not go: submodules and repositories.
    pub skipped_walk_roots: Vec<String>,
}

/// The search for repositories below a directory, one directory at a time.
#[derive(Clone, Debug)]
pub struct GitScan {
    pub root: String,
    /// The directories that have been found and not looked at; the last is next.
    pub stack: Vec<String>,
    pub repo_roots: Vec<String>,
    pub submodules: Vec<String>,
}

pub open spec fn texts(list: Seq<String>) -> Seq<Seq<char>> {
    list.map_values(|s: String| s@)
}

/// Whether no path of a list is, or lies in, another one of it.
pub open spec fn apart(paths: Seq<Seq<char>>) -> bool {
    forall|i: int, j: int|
        0 <= i < paths.len() && 0 <= j < paths.len() && i != j ==> !spec_starts_with(
            #[trigger] paths[i],
            #[trigger] paths[j],
        )
}

/// Whether a path is that of an entry of `dir`.
pub open spec fn is_entry(path: Seq<char>, dir: Seq<char>) -> bool {
    parts(path).len() == parts(dir).len() + 1 && spec_starts_with(path, dir)
}

/// Whether paths are those of different entries of `dir`.
pub open spec fn are_entries(paths: Seq<Seq<char>>, dir: Seq<char>) -> bool {
    &&& forall|i: int| 0 <= i < paths.len() ==> is_entry(#[trigger] paths[i], dir)
    &&& forall|i: int, j: int|
        0 <= i < j < paths.len() ==> parts(#[trigger] paths[i]) != parts(#[trigger] paths[j])
}

/// The directories of a search after the last one of the stack was looked at: a
/// repository or a submodule is noted, of any other directory its entries are stacked.
pub open spec fn scanned(
    stack: Seq<Seq<char>>,
    repos: Seq<Seq<char>>,
    submodules: Seq<Seq<char>>,
    marker: Option<RepoMarker>,
    children: Seq<Seq<char>>,
) -> (Seq<Seq<char>>, Seq<Seq<char>>, Seq<Seq<char>>) {
    let rest = stack.drop_last();
    match marker {
        Some(RepoMarker::Repo) => (rest, repos.push(stack.last()), submodules),
        Some(RepoMarker::Submodule) => (rest, repos, submodules.push(stack.last())),
        None => (rest + children, repos, submodules),
    }
}

/// Directories that are apart stay so when one of them is replaced by its entries.
proof fn lemma_replaced_by_entries(
    before: Seq<Seq<char>>,
    after: Seq<Seq<char>>,
    k: int,
    children: Seq<Seq<char>>,
)
    requires
        apart(before),
        0 <= k < before.len(),
        are_entries(children, before[k]),
        after == before.take(k) + children + before.skip(k + 1),
    ensures
        apart(after),
{
    let n = children.len() as int;
    let dir = before[k];
    assert forall|i: int, j: int|
        0 <= i < after.len() && 0 <= j < after.len() && i != j implies !spec_starts_with(
        #[trigger] after[i],
        #[trigger] after[j],
    ) by {
        let of_i = k <= i < k + n;
        let of_j = k <= j < k + n;
        let oi = if i < k {
            i
        } else {
            i - n + 1
        };
        let oj = if j < k {
            j
        } else {
            j - n + 1
        };
        if of_i && of_j {
            let a = children[i - k];
            let b = children[j - k];
            assert(is_entry(a, dir) && is_entry(b, dir));
            if i < j {
                assert(parts(children[i - k]) != parts(children[j - k]));
            } else {
                assert(parts(children[j - k]) != parts(children[i - k]));
            }
            if spec_starts_with(a, b) {
                assert(parts(a) =~= parts(b));
            }
        } else if of_i {
            let a = children[i - k];
            let x = before[oj];
            assert(after[j] == x);
            assert(is_entry(a, dir));
            assert(!spec_starts_with(dir, x) && !spec_starts_with(x, dir));
            if spec_starts_with(a, x) {
                lemma_prefixes_of_one(parts(a), parts(x), parts(dir));
            }
        } else if of_j {
            let b = children[j - k];
            let x = before[oi];
            assert(after[i] == x);
            assert(is_entry(b, dir));
            assert(!spec_starts_with(x, dir));
            if spec_starts_with(x, b) {
                assert(parts(x).take(parts(dir).len() as int) =~= parts(x).take(
                    parts(b).len() as int,
                ).take(parts(dir).len() as int));
            }
        } else {
            assert(after[i] == before[oi] && after[j] == before[oj]);
        }
    }
}

/// Of two beginnings of one list, one is the beginning of the other.
proof fn lemma_prefixes_of_one(all: Seq<PartView>, a: Seq<PartView>, b: Seq<PartView>)
    requires
        begins_with(all, a),
        begins_with(all, b),
    ensures
        begins_with(a, b) || begins_with(b, a),
{
    if a.len() <= b.len() {
        assert(b.take(a.len() as int) =~= all.take(a.len() as int));
    } else {
        assert(a.take(b.len() as int) =~= all.take(b.len() as int));
    }
}

/// Directories that are apart stay so in another order.
proof fn lemma_apart_moved(before: Seq<Seq<char>>, k: int, to: int)
    requires
        apart(before),
        0 <= k <= to < before.len(),
    ensures
        apart(before.remove(k).insert(to, before[k])),
{
    let after = before.remove(k).insert(to, before[k]);
    assert forall|i: int, j: int|
        0 <= i < after.len() && 0 <= j < after.len() && i != j implies !spec_starts_with(
        #[trigger] after[i],
        #[trigger] after[j],
    ) by {
        let oi = if i < k || i > to {
            i
        } else if i == to {
            k
        } else {
            i + 1
        };
        let oj = if j < k || j > to {
            j
        } else if j == to {
            k
        } else {
            j + 1
        };
        assert(after[i] == before[oi] && after[j] == before[oj]);
    }
}

/// One step of the search keeps all directories apart that it has found: neither those
/// on the stack, nor repositories, nor submodules lie in one another. So no repository
/// is noted that lies in another, and no submodule in a repository that was noted.
/// Entries are given as the directory has them: directly in it, and each once.
pub proof fn lemma_scan_keeps_apart(
    stack: Seq<Seq<char>>,
    repos: Seq<Seq<char>>,
    submodules: Seq<Seq<char>>,
    marker: Option<RepoMarker>,
    children: Seq<Seq<char>>,
)
    requires
        stack.len() > 0,
        apart(stack + repos + submodules),
        are_entries(children, stack.last()),
    ensures
        ({
            let (s, r, m) = scanned(stack, repos, submodules, marker, children);
            apart(s + r + m)
        }),
{
    let before = stack + repos + submodules;
    let k = stack.len() - 1;
    let (s, r, m) = scanned(stack, repos, submodules, marker, children);
    assert(before[k] == stack.last());
    match marker {
        Some(RepoMarker::Repo) => {
            let to = k + repos.len() as int;
            lemma_apart_moved(before, k, to);
            assert(s + r + m =~= before.remove(k).insert(to, before[k]));
        },
        Some(RepoMarker::Submodule) => {
            let to = before.len() - 1;
            lemma_apart_moved(before, k, to);
            assert(s + r + m =~= before.remove(k).insert(to, before[k]));
        },
        None => {
            assert(s + r + m =~= before.take(k) + children + before.skip(k + 1));
            lemma_replaced_by_entries(before, s + r + m, k, children);
        },
    }
}

impl GitScan {
    /// All directories that have been found: those to be looked at, the repositories and
    /// the submodules.
    pub open spec fn found(self) -> Seq<Seq<char>> {
        texts(self.stack@) + texts(self.repo_roots@) + texts(self.submodules@)
    }

    /// The directories that have been found with one that is looked at.
    pub open spec fn found_with(self, dir: Seq<char>) -> Seq<Seq<char>> {
        texts(self.stack@).push(dir) + texts(self.repo_roots@) + texts(self.submodules@)
    }

    /// Starts at `root`.
    pub fn start(root: &str) -> (scan: GitScan)
        ensures
            apart(scan.found()),
            scan.root@ == root@,
            texts(scan.stack@) == seq![root@],
            scan.repo_roots@.len() == 0,
            scan.submodules@.len() == 0,
    {
        let mut stack: Vec<String> = Vec::new();
        stack.push(root.to_owned());
        proof {
            assert(texts(stack@) =~= seq![root@]);
        }
        GitScan { root: root.to_owned(), stack, repo_roots: Vec::new(), submodules: Vec::new() }
    }

    /// The directory to look at next, which leaves the stack; `None` when the search is
    /// over.
    pub fn next(&mut self) -> (dir: Option<String>)
        ensures
            match dir {
                Some(dir) => {
                    &&& old(self).stack@.len() > 0
                    &&& dir == old(self).stack@.last()
                    &&& final(self).stack@ == old(self).stack@.drop_last()
                },
                None => old(self).stack@.len() == 0 && final(self).stack@ == old(self).stack@,
            },
            final(self).root == old(self).root,
            final(self).repo_roots == old(self).repo_roots,
            final(self).submodules == old(self).submodules,
            dir matches Some(dir) ==> final(self).found_with(dir@) == old(self).found(),
    {
        let dir: Option<String> = self.stack.pop();
        proof {
            if dir is Some {
                assert(self.found_with(dir->Some_0@) =~= old(self).found());
            }
        }
        dir
    }

    /// Goes on after a directory was looked at: a repository or a submodule is noted and
    /// not entered, of any other directory the directories in it are looked at.
    pub fn record(&mut self, dir: String, marker: Option<RepoMarker>, children: Vec<String>)
        ensures
            match marker {
                Some(RepoMarker::Repo) => {
                    &&& final(self).repo_roots@ == old(self).repo_roots@.push(dir)
                    &&& final(self).submodules == old(self).submodules
                    &&& final(self).stack == old(self).stack
                },
                Some(RepoMarker::Submodule) => {
                    &&& final(self).repo_roots == old(self).repo_roots
                    &&& final(self).submodules@ == old(self).submodules@.push(dir)
                    &&& final(self).stack == old(self).stack
                },
                None => {
                    &&& final(self).repo_roots == old(self).repo_roots
                    &&& final(self).submodules == old(self).submodules
                    &&& final(self).stack@ == old(self).stack@ + children@
                },
            },
            final(self).root == old(self).root,
            apart(old(self).found_with(dir@)) && are_entries(texts(children@), dir@) ==> apart(
                final(self).found(),
            ),
    {
        let ghost name = dir@;
        let ghost entries = children@;
        proof {
            let stack = texts(self.stack@).push(name);
            let repos = texts(self.repo_roots@);
            let submodules = texts(self.submodules@);
            assert(stack.drop_last() =~= texts(self.stack@));
            if apart(self.found_with(name)) && are_entries(texts(entries), name) {
                lemma_scan_keeps_apart(stack, repos, submodules, marker, texts(entries));
            }
        }
        match marker {
            Some(RepoMarker::Repo) => {
                self.repo_roots.push(dir);
            },
            Some(RepoMarker::Submodule) => {
                self.submodules.push(dir);
            },
            None => {
                let mut children: Vec<String> = children;
                self.stack.append(&mut children);
            },
        }
        proof {
            assert(texts(old(self).repo_roots@.push(dir)) =~= texts(old(self).repo_roots@).push(
                name,
            ));
            assert(texts(old(self).submodules@.push(dir)) =~= texts(old(self).submodules@).push(
                name,
            ));
            assert(texts(old(self).stack@ + entries) =~= texts(old(self).stack@) + texts(entries));
        }
    }

    /// The plan, when the search is over.
    pub fn finish(self) -> (plan: GitIngestPlan)
        ensures
            plan.repo_roots == self.repo_roots,
            plan.fallback_root == Some(self.root),
            texts(plan.skipped_walk_roots@) == texts(self.submodules@) + texts(self.repo_roots@),
            apart(self.found()) ==> apart(texts(plan.repo_roots@)),
            apart(self.found()) ==> apart(texts(plan.skipped_walk_roots@)),
    {
        proof {
            let s = texts(self.stack@).len() as int;
            let repos = texts(self.repo_roots@);
            let r = repos.len() as int;
            let m = texts(self.submodules@).len() as int;
            let skipped = texts(self.submodules@) + repos;
            if apart(self.found()) {
                assert forall|i: int, j: int|
                    0 <= i < skipped.len() && 0 <= j < skipped.len() && i
                        != j implies !spec_starts_with(
                    #[trigger] skipped[i],
                    #[trigger] skipped[j],
                ) by {
                    let oi = if i < m {
                        s + r + i
                    } else {
                        s + i - m
                    };
                    let oj = if j < m {
                        s + r + j
                    } else {
                        s + j - m
                    };
                    assert(self.found()[oi] == skipped[i] && self.found()[oj] == skipped[j]);
                }
            }
            if apart(self.found()) {
                assert forall|i: int, j: int|
                    0 <= i < repos.len() && 0 <= j < repos.len() && i
                        != j implies !spec_starts_with(#[trigger] repos[i], #[trigger] repos[j]) by {
                    assert(self.found()[s + i] == repos[i] && self.found()[s + j] == repos[j]);
                }
            }
        }
        let mut skipped: Vec<String> = self.submodules;
        let ghost submodules = self.submodules@;
        let mut i: usize = 0;
        proof {
            assert(self.repo_roots@.take(0) =~= Seq::<String>::empty());
            assert(texts(skipped@) =~= texts(submodules) + texts(self.repo_roots@.take(0)));
        }
        while i < self.repo_roots.len()
            invariant
                i <= self.repo_roots.len(),
                texts(skipped@) == texts(submodules) + texts(self.repo_roots@.take(i as int)),
            decreases self.repo_roots.len() - i,
        {
            let ghost before = skipped@;
            let root: String = self.repo_roots[i].clone();
            let ghost name = root@;
            skipped.push(root);
            proof {
                assert(texts(skipped@) =~= texts(before).push(name));
                assert(texts(self.repo_roots@.take(i + 1)) =~= texts(
                    self.repo_roots@.take(i as int),
                ).push(name));
                assert(texts(skipped@) =~= texts(submodules) + texts(
                    self.repo_roots@.take(i + 1),
                ));
            }
            i = i + 1;
        }
        proof {
            assert(self.repo_roots@.take(i as int) =~= self.repo_roots@);
        }
        GitIngestPlan {
            repo_roots: self.repo_roots,
            fallback_root: Some(self.root),
            skipped_walk_roots: skipped,
        }
    }
}

/// The plan for a directory inside of a repository: that repository, and no walk.
pub fn enclosed_plan(repo_root: String) -> (plan: GitIngestPlan)
    ensures
        plan.repo_roots@ == seq![repo_root],
        plan.fallback_root is None,
        plan.skipped_walk_roots@.len() == 0,
{
    let mut repo_roots: Vec<String> = Vec::new();
    repo_roots.push(repo_root);
    proof {
        assert(repo_roots@ =~= seq![repo_root]);
    }
    GitIngestPlan { repo_roots, fallback_root: None, skipped_walk_roots: Vec::new() }
}

/// A walk enters no repository and no submodule: nothing in a root of a plan is visited,
/// unless the walk starts there.
pub proof fn lemma_walk_skips_roots(
    path: Seq<char>,
    walk_root: Seq<char>,
    skipped: Seq<String>,
    i: int,
)
    requires
        0 <= i < skipped.len(),
        spec_starts_with(path, skipped[i]@),
        parts(path) != parts(walk_root),
    ensures
        !spec_should_visit(path, walk_root, skipped),
{
}

/// Whether `k` is the first name of a list from `i` on.
pub open spec fn next_name(list: Seq<PartView>, i: int, k: int) -> bool {
    &&& i <= k < list.len()
    &&& list[k] is Normal
    &&& forall|j: int| i <= j < k ==> !(#[trigger] list[j] is Normal)
}

/// Whether a name `.git` is followed by `modules` as the next name.
pub open spec fn holds_modules(list: Seq<PartView>) -> bool {
    exists|i: int, k: int|
        {
            &&& 0 <= i < list.len()
            &&& #[trigger] list[i] == PartView::Normal(".git"@)
            &&& #[trigger] next_name(list, i + 1, k)
            &&& list[k] == PartView::Normal("modules"@)
        }
}

proof fn lemma_next_name(list: Seq<PartView>, i: int, k: int)
    requires
        list.len() > 0,
        i >= 0,
    ensures
        next_name(list.skip(1), i, k) <==> next_name(list, i + 1, k + 1),
{
    let rest = list.skip(1);
    if next_name(rest, i, k) {
        assert forall|j: int| i + 1 <= j < k + 1 implies !(#[trigger] list[j] is Normal) by {
            assert(rest[j - 1] == list[j]);
        }
    }
    if next_name(list, i + 1, k + 1) {
        assert forall|j: int| i <= j < k implies !(#[trigger] rest[j] is Normal) by {
            assert(rest[j] == list[j + 1]);
        }
    }
}

proof fn lemma_submodule_from(list: Seq<PartView>, after_git: bool)
    ensures
        submodule_from(list, after_git) <==> holds_modules(list) || (after_git && exists|k: int|
            #[trigger] next_name(list, 0, k) && list[k] == PartView::Normal("modules"@)),
    decreases list.len(),
{
    if list.len() > 0 {
        let rest = list.skip(1);
        let here = exists|k: int|
            #[trigger] next_name(list, 0, k) && list[k] == PartView::Normal("modules"@);
        let there = exists|k: int|
            #[trigger] next_name(rest, 0, k) && rest[k] == PartView::Normal("modules"@);
        let git = list[0] == PartView::Normal(".git"@);
        assert(holds_modules(list) <==> holds_modules(rest) || git && there) by {
            if holds_modules(list) {
                let (i, k) = choose|i: int, k: int|
                    {
                        &&& 0 <= i < list.len()
                        &&& #[trigger] list[i] == PartView::Normal(".git"@)
                        &&& #[trigger] next_name(list, i + 1, k)
                        &&& list[k] == PartView::Normal("modules"@)
                    };
                lemma_next_name(list, i, k - 1);
                assert(next_name(rest, i, k - 1));
                assert(rest[k - 1] == list[k]);
                if i > 0 {
                    assert(rest[i - 1] == list[i]);
                    assert(next_name(rest, (i - 1) + 1, k - 1));
                }
            }
            if holds_modules(rest) {
                let (i, k) = choose|i: int, k: int|
                    {
                        &&& 0 <= i < rest.len()
                        &&& #[trigger] rest[i] == PartView::Normal(".git"@)
                        &&& #[trigger] next_name(rest, i + 1, k)
                        &&& rest[k] == PartView::Normal("modules"@)
                    };
                lemma_next_name(list, i + 1, k);
                assert(list[i + 1] == rest[i]);
                assert(next_name(list, (i + 1) + 1, k + 1));
                assert(list[k + 1] == rest[k]);
            }
            if git && there {
                let k = choose|k: int|
                    #[trigger] next_name(rest, 0, k) && rest[k] == PartView::Normal("modules"@);
                lemma_next_name(list, 0, k);
                let i: int = 0;
                assert(list[i] == PartView::Normal(".git"@));
                assert(next_name(list, i + 1, k + 1));
                assert(list[k + 1] == rest[k]);
            }
        }
        match list[0] {
            PartView::Normal(name) => {
                assert(here <==> name == "modules"@) by {
                    if here {
                        let k = choose|k: int|
                            #[trigger] next_name(list, 0, k) && list[k] == PartView::Normal(
                                "modules"@,
                            );
                        if k > 0 {
                            assert(!(list[0] is Normal));
                        }
                    }
                    if name == "modules"@ {
                        assert(next_name(list, 0, 0));
                    }
                }
                lemma_submodule_from(rest, name == ".git"@);
                reveal_strlit(".git");
                reveal_strlit("modules");
            },
            _ => {
                lemma_submodule_from(rest, after_git);
                assert(here <==> there) by {
                    if here {
                        let k = choose|k: int|
                            #[trigger] next_name(list, 0, k) && list[k] == PartView::Normal(
                                "modules"@,
                            );
                        assert(k > 0);
                        assert forall|j: int| 0 <= j < k - 1 implies !(
                        #[trigger] rest[j] is Normal) by {
                            assert(rest[j] == list[j + 1]);
                        }
                        assert(next_name(rest, 0, k - 1));
                        assert(rest[k - 1] == list[k]);
                    }
                    if there {
                        let k = choose|k: int|
                            #[trigger] next_name(rest, 0, k) && rest[k] == PartView::Normal(
                                "modules"@,
                            );
                        assert forall|j: int| 0 <= j < k + 1 implies !(
                        #[trigger] list[j] is Normal) by {
                            if j > 0 {
                                assert(rest[j - 1] == list[j]);
                            }
                        }
                        assert(next_name(list, 0, k + 1));
                        assert(list[k + 1] == rest[k]);
                    }
                }
            },
        }
    }
}

/// A path lies in the repository of a submodule if and only if a name `.git` in it is
/// followed by `modules` as the next name.
pub proof fn lemma_points_to_submodule(path: Seq<char>)
    ensures
        points_to_submodule(path) <==> holds_modules(parts(path)),
{
    lemma_submodule_from(parts(path), false);
}

/// Paths, each with a zero byte after it: as git prints them.
pub open spec fn printed(paths: Seq<Seq<u8>>) -> Seq<u8>
    decreases paths.len(),
{
    if paths.len() == 0 {
        seq![]
    } else {
        paths[0].push(0) + printed(paths.skip(1))
    }
}

/// What git prints is read back: paths that are not empty and hold no zero byte, each with
/// one after it, are read as these paths, in their order.
pub proof fn lemma_printed_is_read_back(paths: Seq<Seq<u8>>)
    requires
        forall|i: int| 0 <= i < paths.len() ==> (#[trigger] paths[i]).len() > 0,
        forall|i: int, j: int|
            0 <= i < paths.len() && 0 <= j < paths[i].len() ==> #[trigger] paths[i][j] != 0,
    ensures
        path_entries(printed(paths)) == paths,
    decreases paths.len(),
{
    if paths.len() > 0 {
        let rest = paths.skip(1);
        assert forall|i: int| 0 <= i < rest.len() implies (#[trigger] rest[i]).len() > 0 by {
            assert(rest[i] == paths[i + 1]);
        }
        assert forall|i: int, j: int|
            0 <= i < rest.len() && 0 <= j < rest[i].len() implies #[trigger] rest[i][j] != 0 by {
            assert(rest[i] == paths[i + 1]);
            assert(paths[i + 1][j] != 0);
        }
        lemma_printed_is_read_back(rest);
        let all = printed(paths);
        let n = paths[0].len() as int;
        assert forall|i: int| 0 <= i < n implies all[i] != 0 by {
            assert(all[i] == paths[0][i]);
        }
        assert(all[n] == 0);
        lemma_entry_length(all, n);
        assert(all.take(n) =~= paths[0]);
        assert(all.skip(n + 1) =~= printed(rest));
        assert(path_entries(all) =~= seq![paths[0]] + path_entries(printed(rest)));
        assert(seq![paths[0]] + rest =~= paths);
    } else {
        assert(path_entries(printed(paths)) =~= paths);
    }
}

/// A file `.git` with `gitdir:` and a path points to that path, whatever white space there
/// is around them.
pub proof fn lemma_pointer(before: Seq<char>, space: Seq<char>, target: Seq<char>, after: Seq<char>)
    requires
        forall|i: int| 0 <= i < before.len() ==> is_space(#[trigger] before[i]),
        forall|i: int| 0 <= i < space.len() ==> is_space(#[trigger] space[i]),
        forall|i: int| 0 <= i < after.len() ==> is_space(#[trigger] after[i]),
        target.len() > 0,
        !is_space(target[0]),
        !is_space(target.last()),
    ensures
        pointer_target(before + "gitdir:"@ + space + target + after) == Some(target),
{
    reveal_strlit("gitdir:");
    let prefix = "gitdir:"@;
    let text = before + prefix + space + target + after;
    let inner = prefix + space + target;
    let b = before.len() as int;
    let n = inner.len() as int;
    lemma_trimmed_is(text, b, b + n);
    assert(text.subrange(b, b + n) =~= inner);
    assert(inner.take(prefix.len() as int) =~= prefix);
    let rest = inner.skip(prefix.len() as int);
    let m = space.len() as int;
    assert(rest =~= space + target);
    lemma_trimmed_is(rest, m, rest.len() as int);
    assert(rest.subrange(m, rest.len() as int) =~= target);
}

/// What git printed is read as the path without the white space around it, where it
/// succeeded and printed something.
pub proof fn lemma_enclosing_root(before: Seq<char>, root: Seq<char>, after: Seq<char>)
    requires
        forall|i: int| 0 <= i < before.len() ==> is_space(#[trigger] before[i]),
        forall|i: int| 0 <= i < after.len() ==> is_space(#[trigger] after[i]),
        root.len() > 0,
        !is_space(root[0]),
        !is_space(root.last()),
    ensures
        spec_enclosing_root(true, before + root + after) == Some(root),
        spec_enclosing_root(true, before) is None,
        spec_enclosing_root(false, before + root + after) is None,
{
    let text = before + root + after;
    let b = before.len() as int;
    let n = root.len() as int;
    lemma_trimmed_is(text, b, b + n);
    assert(text.subrange(b, b + n) =~= root);
    let (x, y) = lemma_trimmed(before);
    if x < y {
        assert(is_space(before[x]));
    }
}

/// A directory is a repository by a directory `.git` with a head, or by a file `.git` that
/// points to one; it is a submodule where that lies among the modules of another one.
pub proof fn lemma_repo_marker(dir: Seq<char>, has_head: bool, text: String, target: Seq<char>)
    requires
        target.len() > 0,
        !is_space(target[0]),
        !is_space(target.last()),
        text@ == "gitdir:"@ + seq![' '] + target + seq!['\n'],
    ensures
        spec_repo_marker(dir, GitEntry::Directory { has_head }) == Ok::<
            Option<RepoMarker>,
            InvalidPointer,
        >(
            if has_head {
                Some(RepoMarker::Repo)
            } else {
                None
            },
        ),
        spec_repo_marker(dir, GitEntry::Missing) == Ok::<Option<RepoMarker>, InvalidPointer>(None),
        spec_repo_marker(dir, GitEntry::File { text }) == Ok::<Option<RepoMarker>, InvalidPointer>(
            if holds_modules(parts(spec_join(dir, target))) {
                Some(RepoMarker::Submodule)
            } else {
                Some(RepoMarker::Repo)
            },
        ),
{
    let none = Seq::<char>::empty();
    let space = seq![' '];
    let end = seq!['\n'];
    assert(is_space(space[0]));
    assert(is_space(end[0]));
    lemma_pointer(none, space, target, end);
    assert(none + "gitdir:"@ + space + target + end =~= text@);
    lemma_points_to_submodule(spec_join(dir, target));
}

/// A walk goes into its own root whatever is skipped, and elsewhere just into what lies in
/// none of the roots that are skipped.
pub proof fn lemma_visits(path: Seq<char>, walk_root: Seq<char>, skipped_roots: Seq<String>, i: int)
    requires
        0 <= i < skipped_roots.len(),
    ensures
        spec_should_visit(walk_root, walk_root, skipped_roots),
        parts(path) != parts(walk_root) && spec_starts_with(path, skipped_roots[i]@)
            ==> !spec_should_visit(path, walk_root, skipped_roots),
        spec_should_visit(path, walk_root, seq![]),
        (forall|j: int|
            0 <= j < skipped_roots.len() ==> !spec_starts_with(path, #[trigger] skipped_roots[j]@))
            ==> spec_should_visit(path, walk_root, skipped_roots),
{
}

} // verus!
