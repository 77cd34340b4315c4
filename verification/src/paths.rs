//! Paths as texts: their components, and the relations between them.
//!
//! A path is read as on Unix: components are separated by `/`, empty components and
//! components `.` count for nothing, save a `.` at the very start.

use crate::text::{chars_of, same_text, string_of};
use vstd::prelude::*;

verus! {

/// A component of a path.
#[derive(Clone, Debug, PartialEq, Eq)]
pub enum PathPart {
    /// The `/` at the start.
    Root,
    /// A `.` at the start.
    Current,
    /// `..`
    Parent,
    /// A name.
    Normal(String),
}

/// The view of a [`PathPart`].
pub enum PartView {
    Root,
    Current,
    Parent,
    Normal(Seq<char>),
}

impl View for PathPart {
    type V = PartView;

    open spec fn view(&self) -> PartView {
        match self {
            PathPart::Root => PartView::Root,
            PathPart::Current => PartView::Current,
            PathPart::Parent => PartView::Parent,
            PathPart::Normal(name) => PartView::Normal(name@),
        }
    }
}

pub open spec fn parts_view(parts: Seq<PathPart>) -> Seq<PartView> {
    parts.map_values(|part: PathPart| part@)
}

/// The number of characters before the first `/`.
pub open spec fn segment_length(s: Seq<char>) -> nat
    decreases s.len(),
{
    if s.len() == 0 || s[0] == '/' {
        0
    } else {
        1 + segment_length(s.skip(1))
    }
}

/// The component that a segment makes, if any; `leading` says that it starts the path.
pub open spec fn segment_part(segment: Seq<char>, leading: bool) -> Seq<PartView> {
    if segment.len() == 0 {
        seq![]
    } else if segment == seq!['.'] {
        if leading {
            seq![PartView::Current]
        } else {
            seq![]
        }
    } else if segment == seq!['.', '.'] {
        seq![PartView::Parent]
    } else {
        seq![PartView::Normal(segment)]
    }
}

/// The components of the rest of a path.
pub open spec fn parts_from(s: Seq<char>, leading: bool) -> Seq<PartView>
    decreases s.len(),
    via parts_from_decreases
{
    if s.len() == 0 {
        seq![]
    } else {
        let n = segment_length(s) as int;
        let part = segment_part(s.take(n), leading);
        if n < s.len() {
            part + parts_from(s.skip(n + 1), false)
        } else {
            part
        }
    }
}

#[via_fn]
proof fn parts_from_decreases(s: Seq<char>, leading: bool) {
}

/// The components of a path.
pub open spec fn parts(path: Seq<char>) -> Seq<PartView> {
    if path.len() > 0 && path[0] == '/' {
        seq![PartView::Root] + parts_from(path.skip(1), false)
    } else {
        parts_from(path, true)
    }
}

proof fn lemma_segment(s: Seq<char>, n: int)
    requires
        0 <= n <= s.len(),
        forall|i: int| 0 <= i < n ==> s[i] != '/',
        n == s.len() || s[n] == '/',
    ensures
        segment_length(s) == n,
    decreases n,
{
    if n > 0 {
        let rest = s.skip(1);
        assert forall|i: int| 0 <= i < n - 1 implies rest[i] != '/' by {
            assert(rest[i] == s[i + 1]);
        }
        lemma_segment(rest, n - 1);
    }
}

/// The components of `path`.
pub fn components(path: &str) -> (list: Vec<PathPart>)
    ensures
        parts_view(list@) == parts(path@),
{
    let chars: Vec<char> = chars_of(path);
    let ghost text = path@;
    let mut list: Vec<PathPart> = Vec::new();
    let mut from: usize = 0;
    let mut leading = true;
    if chars.len() > 0 && chars[0] == '/' {
        list.push(PathPart::Root);
        from = 1;
        leading = false;
        proof {
            assert(parts_view(list@) =~= seq![PartView::Root]);
        }
    } else {
        proof {
            assert(text.skip(0) =~= text);
        }
    }
    proof {
        assert(parts(text) =~= parts_view(list@) + parts_from(text.skip(from as int), leading));
    }
    while from < chars.len()
        invariant
            text == path@,
            chars@ == text,
            from <= chars.len(),
            parts(text) == parts_view(list@) + parts_from(text.skip(from as int), leading),
        decreases chars.len() - from,
    {
        let ghost rest = text.skip(from as int);
        let mut to: usize = from;
        while to < chars.len() && chars[to] != '/'
            invariant
                chars@ == text,
                from <= to <= chars.len(),
                forall|i: int| from <= i < to ==> text[i] != '/',
            decreases chars.len() - to,
        {
            to = to + 1;
        }
        let ghost before = parts_view(list@);
        let segment: &[char] = vstd::slice::slice_subrange(chars.as_slice(), from, to);
        proof {
            lemma_segment(rest, to - from);
            assert(rest.take(to - from) =~= segment@);
        }
        let ghost part = segment_part(segment@, leading);
        if segment.len() == 0 {
            proof {
                assert(before =~= before + part);
            }
        } else if segment.len() == 1 && segment[0] == '.' {
            proof {
                assert(segment@ =~= seq!['.']);
            }
            if leading {
                list.push(PathPart::Current);
                proof {
                    assert(parts_view(list@) =~= before + part);
                }
            } else {
                proof {
                    assert(before =~= before + part);
                }
            }
        } else if segment.len() == 2 && segment[0] == '.' && segment[1] == '.' {
            proof {
                assert(segment@ =~= seq!['.', '.']);
            }
            list.push(PathPart::Parent);
            proof {
                assert(parts_view(list@) =~= before + part);
            }
        } else {
            list.push(PathPart::Normal(string_of(segment)));
            proof {
                if segment@ == seq!['.'] {
                    assert(segment@[0] == '.');
                }
                if segment@ == seq!['.', '.'] {
                    assert(segment@[0] == '.' && segment@[1] == '.');
                }
                assert(parts_view(list@) =~= before + part);
            }
        }
        if to < chars.len() {
            proof {
                assert(rest.skip(to - from + 1) =~= text.skip(to + 1));
                assert(parts(text) =~= parts_view(list@) + parts_from(text.skip(to + 1), false));
            }
            from = to + 1;
        } else {
            proof {
                assert(text.skip(to as int).len() == 0);
                assert(parts(text) =~= parts_view(list@) + parts_from(
                    text.skip(to as int),
                    false,
                ));
            }
            from = to;
        }
        leading = false;
    }
    proof {
        assert(parts(text) =~= parts_view(list@));
    }
    list
}

/// Whether two components are the same.
pub fn same_part(a: &PathPart, b: &PathPart) -> (same: bool)
    ensures
        same == (a@ == b@),
{
    match (a, b) {
        (PathPart::Root, PathPart::Root) => true,
        (PathPart::Current, PathPart::Current) => true,
        (PathPart::Parent, PathPart::Parent) => true,
        (PathPart::Normal(x), PathPart::Normal(y)) => same_text(x.as_str(), y.as_str()),
        _ => false,
    }
}

/// Whether `prefix` are the first components.
pub open spec fn begins_with(parts: Seq<PartView>, prefix: Seq<PartView>) -> bool {
    prefix.len() <= parts.len() && parts.take(prefix.len() as int) == prefix
}

/// Whether `prefix` are the first components of `parts`.
pub fn has_prefix(parts: &[PathPart], prefix: &[PathPart]) -> (yes: bool)
    ensures
        yes == begins_with(parts_view(parts@), parts_view(prefix@)),
{
    let ghost p = parts_view(parts@);
    let ghost q = parts_view(prefix@);
    if prefix.len() > parts.len() {
        return false;
    }
    let mut i: usize = 0;
    while i < prefix.len()
        invariant
            i <= prefix.len() <= parts.len(),
            p == parts_view(parts@),
            q == parts_view(prefix@),
            forall|j: int| 0 <= j < i ==> p[j] == q[j],
        decreases prefix.len() - i,
    {
        if !same_part(&parts[i], &prefix[i]) {
            proof {
                assert(p.take(q.len() as int)[i as int] != q[i as int]);
            }
            return false;
        }
        i = i + 1;
    }
    proof {
        assert(p.take(q.len() as int) =~= q);
    }
    true
}

/// Whether the components of `base` are the first ones of `path`.
pub open spec fn spec_starts_with(path: Seq<char>, base: Seq<char>) -> bool {
    begins_with(parts(path), parts(base))
}

/// Whether `path` is `base` or lies below it.
pub fn starts_with(path: &str, base: &str) -> (yes: bool)
    ensures
        yes == spec_starts_with(path@, base@),
{
    has_prefix(components(path).as_slice(), components(base).as_slice())
}

/// Whether two paths have the same components.
pub fn same_path(a: &str, b: &str) -> (same: bool)
    ensures
        same == (parts(a@) == parts(b@)),
{
    let x: Vec<PathPart> = components(a);
    let y: Vec<PathPart> = components(b);
    proof {
        let p = parts_view(x@);
        let q = parts_view(y@);
        if p.len() == q.len() {
            assert(p.take(q.len() as int) =~= p);
        }
    }
    x.len() == y.len() && has_prefix(x.as_slice(), y.as_slice())
}

/// The components of `path` below `base`, if it lies there.
pub open spec fn stripped(path: Seq<char>, base: Seq<char>) -> Option<Seq<PartView>> {
    if spec_starts_with(path, base) {
        Some(parts(path).skip(parts(base).len() as int))
    } else {
        None
    }
}

/// The components of `path` below `base`, if it lies there.
pub fn strip_prefix(path: &str, base: &str) -> (rest: Option<Vec<PathPart>>)
    ensures
        match rest {
            Some(rest) => stripped(path@, base@) == Some(parts_view(rest@)),
            None => stripped(path@, base@) is None,
        },
{
    let mut list: Vec<PathPart> = components(path);
    let prefix: Vec<PathPart> = components(base);
    if !has_prefix(list.as_slice(), prefix.as_slice()) {
        return None;
    }
    let ghost all = parts_view(list@);
    let rest: Vec<PathPart> = list.split_off(prefix.len());
    proof {
        assert(parts_view(rest@) =~= all.skip(prefix@.len() as int));
    }
    Some(rest)
}

/// The names among components, with `/` between them.
pub open spec fn joined_names(parts: Seq<PartView>) -> Seq<char>
    decreases parts.len(),
{
    if parts.len() == 0 {
        seq![]
    } else {
        let before = joined_names(parts.drop_last());
        match parts.last() {
            PartView::Normal(name) => if before.len() == 0 {
                name
            } else {
                before.push('/') + name
            },
            _ => before,
        }
    }
}

/// The names among components, with `/` between them.
pub fn join_names(list: &[PathPart]) -> (text: String)
    ensures
        text@ == joined_names(parts_view(list@)),
{
    let ghost views = parts_view(list@);
    let mut text = String::new();
    let mut i: usize = 0;
    while i < list.len()
        invariant
            i <= list.len(),
            views == parts_view(list@),
            text@ == joined_names(views.take(i as int)),
        decreases list.len() - i,
    {
        proof {
            assert(views.take(i + 1).drop_last() =~= views.take(i as int));
            assert(views.take(i + 1).last() == list@[i as int]@);
        }
        match &list[i] {
            PathPart::Normal(name) => {
                let ghost before = text@;
                if !text.as_str().is_empty() {
                    text.push('/');
                }
                text.append(name.as_str());
                proof {
                    if before.len() == 0 {
                        assert(before + name@ =~= name@);
                    }
                }
            },
            _ => {},
        }
        i = i + 1;
    }
    proof {
        assert(views.take(i as int) =~= views);
    }
    text
}

/// Whether components lead nowhere but down.
pub open spec fn descends(parts: Seq<PartView>) -> bool {
    forall|i: int|
        0 <= i < parts.len() ==> (#[trigger] parts[i] is Current || parts[i] is Normal)
}

/// The path of a file below a root, with `/` between its components: what an ingest
/// pattern is held against. `None` where the file does not lie below the root.
pub open spec fn spec_relative_path(root: Seq<char>, candidate: Seq<char>) -> Option<Seq<char>> {
    match stripped(candidate, root) {
        Some(rest) => if descends(rest) {
            Some(joined_names(rest))
        } else {
            None
        },
        None => None,
    }
}

/// The path of a file below a root, with `/` between its components.
pub fn normalize_relative_path(root_path: &str, candidate_path: &str) -> (relative: Option<String>)
    ensures
        match relative {
            Some(relative) => spec_relative_path(root_path@, candidate_path@) == Some(relative@),
            None => spec_relative_path(root_path@, candidate_path@) is None,
        },
{
    let rest: Vec<PathPart> = match strip_prefix(candidate_path, root_path) {
        Some(rest) => rest,
        None => {
            return None;
        },
    };
    let ghost views = parts_view(rest@);
    let mut i: usize = 0;
    while i < rest.len()
        invariant
            i <= rest.len(),
            views == parts_view(rest@),
            forall|j: int|
                0 <= j < i ==> (#[trigger] views[j] is Current || views[j] is Normal),
            stripped(candidate_path@, root_path@) == Some(views),
        decreases rest.len() - i,
    {
        match &rest[i] {
            PathPart::Current => {},
            PathPart::Normal(_) => {},
            _ => {
                proof {
                    assert(!(views[i as int] is Current || views[i as int] is Normal));
                }
                return None;
            },
        }
        i = i + 1;
    }
    Some(join_names(rest.as_slice()))
}

/// The last component of a path, if it is a name.
pub open spec fn spec_file_name(path: Seq<char>) -> Option<Seq<char>> {
    let list = parts(path);
    if list.len() > 0 {
        match list.last() {
            PartView::Normal(name) => Some(name),
            _ => None,
        }
    } else {
        None
    }
}

/// The last component of a path, if it is a name.
pub fn file_name(path: &str) -> (name: Option<String>)
    ensures
        match name {
            Some(name) => spec_file_name(path@) == Some(name@),
            None => spec_file_name(path@) is None,
        },
{
    let mut list: Vec<PathPart> = components(path);
    let ghost views = parts_view(list@);
    match list.pop() {
        Some(PathPart::Normal(name)) => {
            proof {
                assert(views.last() == PartView::Normal(name@));
            }
            Some(name)
        },
        _ => None,
    }
}

/// Whether `k` is the index of the last full stop.
pub open spec fn last_dot(name: Seq<char>, k: int) -> bool {
    &&& 0 <= k < name.len()
    &&& name[k] == '.'
    &&& forall|i: int| k < i < name.len() ==> name[i] != '.'
}

/// The index of the full stop before the extension.
pub open spec fn extension_dot(name: Seq<char>) -> Option<int> {
    if exists|k: int| k > 0 && last_dot(name, k) {
        Some(choose|k: int| k > 0 && last_dot(name, k))
    } else {
        None
    }
}

/// What follows the last full stop of a file's name, unless the name starts with it.
pub open spec fn spec_extension(path: Seq<char>) -> Option<Seq<char>> {
    match spec_file_name(path) {
        Some(name) => match extension_dot(name) {
            Some(k) => Some(name.skip(k + 1)),
            None => None,
        },
        None => None,
    }
}

/// What follows the last full stop of a file's name, unless the name starts with it.
pub fn extension(path: &str) -> (found: Option<String>)
    ensures
        match found {
            Some(found) => spec_extension(path@) == Some(found@),
            None => spec_extension(path@) is None,
        },
{
    let name: String = match file_name(path) {
        Some(name) => name,
        None => {
            return None;
        },
    };
    let chars: Vec<char> = chars_of(name.as_str());
    let mut k: usize = chars.len();
    while k > 0 && chars[k - 1] != '.'
        invariant
            k <= chars.len(),
            chars@ == name@,
            forall|i: int| k <= i < chars@.len() ==> chars@[i] != '.',
        decreases k,
    {
        k = k - 1;
    }
    if k <= 1 {
        proof {
            assert forall|j: int| j > 0 implies !last_dot(name@, j) by {
                if last_dot(name@, j) {
                    assert(chars@[j] == '.');
                }
            }
        }
        return None;
    }
    proof {
        assert(last_dot(name@, k - 1));
        let j = extension_dot(name@).unwrap();
        assert(last_dot(name@, j));
        if j < k - 1 {
            assert(name@[k - 1] != '.');
        }
        if k - 1 < j {
            assert(name@[j] != '.');
        }
        assert(chars@.subrange(k as int, chars@.len() as int) =~= name@.skip(k as int));
    }
    Some(string_of(vstd::slice::slice_subrange(chars.as_slice(), k, chars.len())))
}

/// `path` as seen from `dir`: itself if it starts at the root, else below `dir`.
pub open spec fn spec_join(dir: Seq<char>, path: Seq<char>) -> Seq<char> {
    if path.len() > 0 && path[0] == '/' {
        path
    } else if dir.len() == 0 || dir.last() == '/' {
        dir + path
    } else {
        dir.push('/') + path
    }
}

/// `path` as seen from `dir`.
pub fn join(dir: &str, path: &str) -> (joined: String)
    ensures
        joined@ == spec_join(dir@, path@),
{
    let p: Vec<char> = chars_of(path);
    if p.len() > 0 && p[0] == '/' {
        return path.to_owned();
    }
    let d: Vec<char> = chars_of(dir);
    let mut joined: String = dir.to_owned();
    if d.len() > 0 && d[d.len() - 1] != '/' {
        joined.push('/');
    }
    joined.append(path);
    joined
}

/// Whether a text can be the name of a file: not empty, without `/`, and neither `.` nor
/// `..`.
pub open spec fn is_name(name: Seq<char>) -> bool {
    &&& name.len() > 0
    &&& forall|i: int| 0 <= i < name.len() ==> name[i] != '/'
    &&& name != seq!['.']
    &&& name != seq!['.', '.']
}

/// What follows a `/` adds its components to those before it.
proof fn lemma_parts_from_slash(a: Seq<char>, b: Seq<char>, leading: bool)
    ensures
        parts_from(a.push('/') + b, leading) == parts_from(a, leading) + parts_from(b, false),
    decreases a.len(),
{
    let all = a.push('/') + b;
    let n = segment_length(a) as int;
    lemma_segment_length(a);
    assert forall|i: int| 0 <= i < n implies all[i] != '/' by {
        assert(all[i] == a[i]);
    }
    if n < a.len() {
        assert(all[n] == a[n]);
        lemma_segment(all, n);
        let rest = a.skip(n + 1);
        assert(all.skip(n + 1) =~= rest.push('/') + b);
        assert(all.take(n) =~= a.take(n));
        lemma_parts_from_slash(rest, b, false);
        assert(parts_from(all, leading) =~= parts_from(a, leading) + parts_from(b, false));
    } else {
        assert(all[n] == '/');
        lemma_segment(all, n);
        assert(all.skip(n + 1) =~= b);
        assert(all.take(n) =~= a);
        assert(a.take(n) =~= a);
        if a.len() == 0 {
            assert(segment_part(a, leading) =~= Seq::<PartView>::empty());
        }
        assert(parts_from(all, leading) =~= parts_from(a, leading) + parts_from(b, false));
    }
}

proof fn lemma_segment_length(s: Seq<char>)
    ensures
        segment_length(s) <= s.len(),
        forall|i: int| 0 <= i < segment_length(s) ==> s[i] != '/',
        segment_length(s) < s.len() ==> s[segment_length(s) as int] == '/',
    decreases s.len(),
{
    if s.len() > 0 && s[0] != '/' {
        let rest = s.skip(1);
        lemma_segment_length(rest);
        assert forall|i: int| 0 <= i < segment_length(s) implies s[i] != '/' by {
            if i > 0 {
                assert(rest[i - 1] == s[i]);
            }
        }
        if segment_length(s) < s.len() {
            assert(rest[segment_length(rest) as int] == s[segment_length(s) as int]);
        }
    }
}

/// What follows a `/` adds its components to those before it.
proof fn lemma_parts_slash(a: Seq<char>, b: Seq<char>)
    requires
        a.len() > 0,
    ensures
        parts(a.push('/') + b) == parts(a) + parts_from(b, false),
{
    let all = a.push('/') + b;
    assert(all[0] == a[0]);
    if a[0] == '/' {
        assert(all.skip(1) =~= a.skip(1).push('/') + b);
        lemma_parts_from_slash(a.skip(1), b, false);
        assert(parts(all) =~= parts(a) + parts_from(b, false));
    } else {
        lemma_parts_from_slash(a, b, true);
    }
}

proof fn lemma_parts_of_segment(segment: Seq<char>, leading: bool)
    requires
        forall|i: int| 0 <= i < segment.len() ==> segment[i] != '/',
    ensures
        parts_from(segment, leading) == segment_part(segment, leading),
{
    lemma_segment(segment, segment.len() as int);
    assert(segment.take(segment.len() as int) =~= segment);
    if segment.len() == 0 {
        assert(segment_part(segment, leading) =~= Seq::<PartView>::empty());
    }
}

/// What the components of a path are, built up from nothing: how it starts gives the
/// first one.
pub proof fn lemma_first_component(name: Seq<char>)
    requires
        is_name(name),
    ensures
        parts(seq![]) == Seq::<PartView>::empty(),
        parts(seq!['/']) == seq![PartView::Root],
        parts(seq!['.']) == seq![PartView::Current],
        parts(seq!['.', '.']) == seq![PartView::Parent],
        parts(name) == seq![PartView::Normal(name)],
{
    lemma_parts_of_segment(name, true);
    lemma_parts_of_segment(seq!['.'], true);
    lemma_parts_of_segment(seq!['.', '.'], true);
    assert(seq!['/'].skip(1) =~= Seq::<char>::empty());
    assert(parts(seq!['/']) =~= seq![PartView::Root]);
    let dot = seq!['.'];
    let dots = seq!['.', '.'];
    assert(dot[0] == '.');
    assert(dots[0] == '.');
    assert(dots.len() != dot.len());
}

/// What the components of a path are, built up further: a name after a `/` is one more
/// component, `..` is one that leads up, and nothing or `.` is none.
pub proof fn lemma_next_component(path: Seq<char>, name: Seq<char>)
    requires
        path.len() > 0,
        is_name(name),
    ensures
        parts(path.push('/')) == parts(path),
        parts(path.push('/').push('.')) == parts(path),
        parts(path.push('/').push('.').push('.')) == parts(path).push(PartView::Parent),
        parts(path.push('/') + name) == parts(path).push(PartView::Normal(name)),
{
    let dot = seq!['.'];
    let dots = seq!['.', '.'];
    assert(dots.len() != dot.len());
    lemma_parts_slash(path, seq![]);
    lemma_parts_slash(path, dot);
    lemma_parts_slash(path, dots);
    lemma_parts_slash(path, name);
    lemma_parts_of_segment(dot, false);
    lemma_parts_of_segment(dots, false);
    lemma_parts_of_segment(name, false);
    assert(path.push('/') + Seq::<char>::empty() =~= path.push('/'));
    assert(path.push('/') + dot =~= path.push('/').push('.'));
    assert(path.push('/') + dots =~= path.push('/').push('.').push('.'));
    assert(parts(path.push('/')) =~= parts(path));
    assert(parts(path.push('/').push('.')) =~= parts(path));
    assert(parts(path.push('/').push('.').push('.')) =~= parts(path).push(PartView::Parent));
    assert(parts(path.push('/') + name) =~= parts(path).push(PartView::Normal(name)));
}

/// As [`lemma_next_component`], for what follows a path that is nothing but `/` or ends
/// with it.
pub proof fn lemma_component_after_slash(path: Seq<char>, name: Seq<char>)
    requires
        path.len() > 0,
        path.last() == '/',
        is_name(name),
    ensures
        parts(path + name) == parts(path).push(PartView::Normal(name)),
{
    let before = path.drop_last();
    assert(before.push('/') =~= path);
    if before.len() > 0 {
        lemma_next_component(before, name);
    } else {
        assert(path =~= seq!['/']);
        lemma_first_component(name);
        assert((path + name).skip(1) =~= name);
        assert((path + name)[0] == '/');
        lemma_parts_of_segment(name, false);
        assert(parts(path + name) =~= parts(path).push(PartView::Normal(name)));
    }
}

/// Every component that is a name can be one.
proof fn lemma_parts_from_names(s: Seq<char>, leading: bool, i: int)
    requires
        0 <= i < parts_from(s, leading).len(),
    ensures
        parts_from(s, leading)[i] matches PartView::Normal(name) ==> is_name(name),
        !(parts_from(s, leading)[i] is Root),
        parts_from(s, leading)[i] is Current ==> leading && i == 0,
    decreases s.len(),
{
    let n = segment_length(s) as int;
    lemma_segment_length(s);
    let part = segment_part(s.take(n), leading);
    let segment = s.take(n);
    assert forall|k: int| 0 <= k < segment.len() implies segment[k] != '/' by {
        assert(segment[k] == s[k]);
    }
    if i >= part.len() {
        lemma_parts_from_names(s.skip(n + 1), false, i - part.len());
    }
}

/// Every component of a path that is a name can be one; `/` and `.` stand at its start
/// alone.
pub proof fn lemma_names(path: Seq<char>, i: int)
    requires
        0 <= i < parts(path).len(),
    ensures
        parts(path)[i] matches PartView::Normal(name) ==> is_name(name),
        i > 0 ==> parts(path)[i] is Normal || parts(path)[i] is Parent,
{
    if path.len() > 0 && path[0] == '/' {
        if i > 0 {
            lemma_parts_from_names(path.skip(1), false, i - 1);
        }
    } else {
        lemma_parts_from_names(path, true, i);
    }
}

/// Whether components are names, all of them.
pub open spec fn all_names(list: Seq<PartView>) -> bool {
    forall|i: int|
        0 <= i < list.len() ==> (#[trigger] list[i] matches PartView::Normal(name) && is_name(name))
}

/// Names that were joined are the components of what they were joined to.
pub proof fn lemma_joined_names(list: Seq<PartView>)
    requires
        all_names(list),
    ensures
        parts_from(joined_names(list), false) == list,
        list.len() > 0 ==> joined_names(list).len() > 0 && joined_names(list)[0] != '/',
    decreases list.len(),
{
    if list.len() > 0 {
        let head = list.drop_last();
        assert forall|i: int| 0 <= i < head.len() implies (
        #[trigger] head[i] matches PartView::Normal(name) && is_name(name)) by {
            assert(head[i] == list[i]);
        }
        lemma_joined_names(head);
        assert(list[list.len() - 1] == list.last());
        let name = list.last()->Normal_0;
        let before = joined_names(head);
        lemma_parts_of_segment(name, false);
        if head.len() > 0 {
            lemma_parts_from_slash(before, name, false);
            assert((before.push('/') + name)[0] == before[0]);
        } else {
            assert(head =~= Seq::<PartView>::empty());
        }
        assert(parts_from(joined_names(list), false) =~= list);
    } else {
        assert(parts_from(joined_names(list), false) =~= list);
    }
}

/// Names that are joined after a path follow its components.
pub proof fn lemma_names_below(path: Seq<char>, list: Seq<PartView>)
    requires
        path.len() > 0,
        list.len() > 0,
        all_names(list),
    ensures
        parts(path.push('/') + joined_names(list)) == parts(path) + list,
        path.last() == '/' ==> parts(path + joined_names(list)) == parts(path) + list,
{
    let text = joined_names(list);
    lemma_joined_names(list);
    lemma_parts_slash(path, text);
    if path.last() == '/' {
        let before = path.drop_last();
        assert(before.push('/') =~= path);
        if before.len() > 0 {
            lemma_parts_slash(before, text);
            lemma_parts_slash(before, seq![]);
            assert(before.push('/') + Seq::<char>::empty() =~= path);
            assert(parts(path) =~= parts(before));
        } else {
            assert((path + text).skip(1) =~= text);
            assert((path + text)[0] == '/');
            assert(path.skip(1) =~= Seq::<char>::empty());
            assert(parts(path + text) =~= parts(path) + list);
        }
    }
}

/// The path of a file below a root leads to it: where the file lies below the root by
/// names alone, the root's components and those of the relative path are the file's.
pub proof fn lemma_relative_path_leads_back(root: Seq<char>, candidate: Seq<char>)
    requires
        spec_relative_path(root, candidate) is Some,
        root.len() > 0,
        parts(candidate).len() > parts(root).len() > 0,
    ensures
        parts(root.push('/') + spec_relative_path(root, candidate).unwrap()) == parts(candidate),
{
    let n = parts(root).len() as int;
    let rest = parts(candidate).skip(n);
    assert forall|i: int| 0 <= i < rest.len() implies (
    #[trigger] rest[i] matches PartView::Normal(name) && is_name(name)) by {
        assert(rest[i] == parts(candidate)[n + i]);
        lemma_names(candidate, n + i);
        assert(rest[i] is Current || rest[i] is Normal);
    }
    lemma_names_below(root, rest);
    assert(parts(root) + rest =~= parts(candidate));
}

/// A file has a relative path exactly where its components start with those of the root
/// and none after them leads up.
pub proof fn lemma_relative_path_exists(root: Seq<char>, candidate: Seq<char>)
    requires
        parts(root).len() > 0,
    ensures
        spec_relative_path(root, candidate) is Some <==> {
            &&& parts(root).len() <= parts(candidate).len()
            &&& forall|i: int|
                0 <= i < parts(root).len() ==> #[trigger] parts(candidate)[i] == parts(root)[i]
            &&& forall|i: int|
                parts(root).len() <= i < parts(candidate).len() ==> !(#[trigger] parts(
                    candidate,
                )[i] is Parent)
        },
{
    let a = parts(candidate);
    let b = parts(root);
    let n = b.len() as int;
    if n <= a.len() {
        assert((forall|i: int| 0 <= i < n ==> #[trigger] a[i] == b[i]) <==> a.take(n) == b) by {
            if forall|i: int| 0 <= i < n ==> #[trigger] a[i] == b[i] {
                assert(a.take(n) =~= b);
            }
            if a.take(n) == b {
                assert forall|i: int| 0 <= i < n implies #[trigger] a[i] == b[i] by {
                    assert(a.take(n)[i] == a[i]);
                }
            }
        }
        let rest = a.skip(n);
        assert forall|i: int| 0 <= i < rest.len() implies (#[trigger] rest[i] is Current
            || rest[i] is Normal) == !(rest[i] is Parent) by {
            assert(rest[i] == a[n + i]);
            lemma_names(candidate, n + i);
        }
        if descends(rest) {
            assert forall|i: int| n <= i < a.len() implies !(#[trigger] a[i] is Parent) by {
                assert(rest[i - n] == a[i]);
            }
        }
    }
}

/// What a path is as seen from a directory: one that starts at the root is itself, and a
/// name is one more component of the directory.
pub proof fn lemma_join(dir: Seq<char>, path: Seq<char>)
    ensures
        path.len() > 0 && path[0] == '/' ==> spec_join(dir, path) == path,
        dir.len() > 0 && is_name(path) ==> parts(spec_join(dir, path)) == parts(dir).push(
            PartView::Normal(path),
        ),
        dir.len() == 0 ==> spec_join(dir, path) == path,
{
    if dir.len() == 0 {
        assert(dir + path =~= path);
    } else if is_name(path) {
        assert(path[0] != '/');
        if dir.last() == '/' {
            let head = dir.drop_last();
            assert(head.push('/') =~= dir);
            lemma_component_after_slash(dir, path);
        } else {
            lemma_next_component(dir, path);
        }
    }
}

/// When a path lies in another one: where its first components are those of the other one.
pub proof fn lemma_lies_in(path: Seq<char>, base: Seq<char>)
    ensures
        spec_starts_with(path, base) <==> parts(base).len() <= parts(path).len() && forall|i: int|
            0 <= i < parts(base).len() ==> #[trigger] parts(base)[i] == parts(path)[i],
{
    let a = parts(path);
    let b = parts(base);
    let n = b.len() as int;
    if n <= a.len() && forall|i: int| 0 <= i < n ==> #[trigger] b[i] == a[i] {
        assert(a.take(n) =~= b);
    }
    if spec_starts_with(path, base) {
        assert forall|i: int| 0 <= i < n implies #[trigger] b[i] == a[i] by {
            assert(a.take(n)[i] == a[i]);
        }
    }
}

/// What is below a directory lies in it, it does not lie in what is below it, and of two
/// things below it that have different names neither lies in the other, even where one name
/// starts with the other.
pub proof fn lemma_below(dir: Seq<char>, a: Seq<char>, b: Seq<char>)
    requires
        dir.len() > 0,
        is_name(a),
        is_name(b),
        a != b,
    ensures
        spec_starts_with(spec_join(dir, a), dir),
        !spec_starts_with(dir, spec_join(dir, a)),
        !spec_starts_with(spec_join(dir, a), spec_join(dir, b)),
        !spec_starts_with(spec_join(dir, b), spec_join(dir, a)),
{
    lemma_join(dir, a);
    lemma_join(dir, b);
    let x = spec_join(dir, a);
    let y = spec_join(dir, b);
    lemma_lies_in(x, dir);
    lemma_lies_in(dir, x);
    lemma_lies_in(x, y);
    lemma_lies_in(y, x);
    let n = parts(dir).len() as int;
    assert(parts(x)[n] == PartView::Normal(a));
    assert(parts(y)[n] == PartView::Normal(b));
}

/// The name of what is below a directory, and the extension of a name: what follows its last
/// full stop, where something stands before that.
pub proof fn lemma_file_name(dir: Seq<char>, stem: Seq<char>, extension: Seq<char>)
    requires
        dir.len() > 0,
        is_name(stem.push('.') + extension),
        forall|i: int| 0 <= i < extension.len() ==> #[trigger] extension[i] != '.',
    ensures
        ({
            let name = stem.push('.') + extension;
            &&& spec_file_name(spec_join(dir, name)) == Some(name)
            &&& stem.len() > 0 ==> spec_extension(spec_join(dir, name)) == Some(extension)
            &&& stem.len() == 0 ==> spec_extension(spec_join(dir, name)) is None
        }),
{
    let name = stem.push('.') + extension;
    lemma_join(dir, name);
    let k = stem.len() as int;
    assert(name[k] == '.');
    assert forall|i: int| k < i < name.len() implies name[i] != '.' by {
        assert(name[i] == extension[i - k - 1]);
    }
    assert(last_dot(name, k));
    assert forall|j: int| last_dot(name, j) implies j == k by {
        if j < k {
            assert(name[k] != '.');
        }
        if k < j {
            assert(name[j] != '.');
        }
    }
    if k > 0 {
        let j = extension_dot(name).unwrap();
        assert(last_dot(name, j));
        assert(name.skip(k + 1) =~= extension);
    }
}

/// A name without a full stop has no extension.
pub proof fn lemma_no_extension(dir: Seq<char>, name: Seq<char>)
    requires
        dir.len() > 0,
        is_name(name),
        forall|i: int| 0 <= i < name.len() ==> #[trigger] name[i] != '.',
    ensures
        spec_file_name(spec_join(dir, name)) == Some(name),
        spec_extension(spec_join(dir, name)) is None,
{
    lemma_join(dir, name);
}

} // verus!
