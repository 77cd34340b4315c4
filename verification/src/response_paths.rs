//! How stored paths are shown in responses: below the name of the root that they lie
//! in.

use crate::paths::{
    components, is_name, join_names, joined_names, lemma_joined_names, lemma_names,
    lemma_names_below, lemma_next_component, parts, parts_view, spec_starts_with, strip_prefix, PartView, PathPart,
};
use crate::rows::{
    first_where, is_first, lemma_first_where, lemma_first_where_is_first, position, rows_of,
};
use crate::text::{chars_of, string_of};
use vstd::prelude::*;

verus! {

/// A root, and the name under which it is shown.
#[derive(Clone, Debug, PartialEq, Eq)]
pub struct ResponsePathRoot {
    pub root: String,
    pub display_root: String,
}

/// The view of a [`ResponsePathRoot`].
pub struct RootView {
    pub root: Seq<char>,
    pub display_root: Seq<char>,
}

impl View for ResponsePathRoot {
    type V = RootView;

    open spec fn view(&self) -> RootView {
        RootView { root: self.root@, display_root: self.display_root@ }
    }
}

/// Shows stored paths.
#[derive(Clone, Debug)]
pub struct ResponsePathTranslator {
    pub roots: Vec<ResponsePathRoot>,
}

/// The number of components of a root.
pub open spec fn depth(root: RootView) -> nat {
    parts(root.root).len()
}

/// The property to be less deep than `n`.
pub open spec fn shallower(n: nat) -> spec_fn(RootView) -> bool {
    |root: RootView| depth(root) < n
}

/// A root put in its place among roots with the deepest first.
pub open spec fn placed(roots: Seq<RootView>, root: RootView) -> Seq<RootView> {
    match first_where(roots, shallower(depth(root))) {
        Some(i) => roots.insert(i, root),
        None => roots.push(root),
    }
}

/// The roots with the deepest first; those of the same depth keep their order.
pub open spec fn deepest_first(roots: Seq<RootView>) -> Seq<RootView>
    decreases roots.len(),
{
    if roots.len() == 0 {
        seq![]
    } else {
        placed(deepest_first(roots.drop_last()), roots.last())
    }
}

/// `deepest_first` gives all roots, and none before a deeper one.
pub proof fn lemma_deepest_first(roots: Seq<RootView>)
    ensures
        deepest_first(roots).to_multiset() == roots.to_multiset(),
        forall|i: int, j: int|
            0 <= i < j < deepest_first(roots).len() ==> depth(#[trigger] deepest_first(roots)[i])
                >= depth(#[trigger] deepest_first(roots)[j]),
    decreases roots.len(),
{
    broadcast use vstd::seq_lib::group_to_multiset_ensures;

    if roots.len() > 0 {
        let head = roots.drop_last();
        let root = roots.last();
        lemma_deepest_first(head);
        let sorted = deepest_first(head);
        let p = shallower(depth(root));
        lemma_first_where_is_first(sorted, p);
        assert(head.push(root) =~= roots);
        let all = placed(sorted, root);
        let k = match first_where(sorted, p) {
            Some(i) => i,
            None => sorted.len() as int,
        };
        assert(all =~= sorted.insert(k, root));
        assert forall|i: int, j: int| 0 <= i < j < all.len() implies depth(#[trigger] all[i])
            >= depth(#[trigger] all[j]) by {
            if j < k {
                assert(depth(sorted[i]) >= depth(sorted[j]));
            } else if i > k {
                assert(depth(sorted[i - 1]) >= depth(sorted[j - 1]));
            } else if i < k && j == k {
                assert(!p(sorted[i]));
            } else if i < k {
                assert(depth(sorted[i]) >= depth(sorted[j - 1]));
            } else if j - 1 > k {
                assert(p(sorted[k]));
                assert(depth(sorted[k]) >= depth(sorted[j - 1]));
            } else {
                assert(p(sorted[k]));
            }
        }
    } else {
        assert(deepest_first(roots) =~= roots);
    }
}

/// The property that `path` lies in a root.
pub open spec fn holds(path: Seq<char>) -> spec_fn(RootView) -> bool {
    |root: RootView| spec_starts_with(path, root.root)
}

/// The names of `rest` below the name of a root.
pub open spec fn displayed(display_root: Seq<char>, rest: Seq<PartView>) -> Seq<char> {
    let relative = joined_names(rest);
    if relative.len() == 0 {
        display_root
    } else if display_root.len() > 0 && display_root.last() == '/' {
        display_root + relative
    } else {
        display_root.push('/') + relative
    }
}

/// How a stored path is shown: below the name of the first root that it lies in, or as
/// it is.
pub open spec fn spec_response_filepath(roots: Seq<RootView>, path: Seq<char>) -> Seq<char> {
    match first_where(roots, holds(path)) {
        Some(i) => displayed(
            roots[i].display_root,
            parts(path).skip(parts(roots[i].root).len() as int),
        ),
        None => path,
    }
}

impl ResponsePathTranslator {
    /// Takes the roots, the deepest first.
    pub fn new(roots: Vec<ResponsePathRoot>) -> (translator: ResponsePathTranslator)
        ensures
            rows_of(translator.roots@) == deepest_first(rows_of(roots@)),
    {
        let ghost all = rows_of(roots@);
        let mut sorted: Vec<ResponsePathRoot> = Vec::new();
        let mut i: usize = 0;
        proof {
            assert(rows_of(sorted@) =~= deepest_first(all.take(0)));
        }
        while i < roots.len()
            invariant
                i <= roots.len(),
                all == rows_of(roots@),
                rows_of(sorted@) == deepest_first(all.take(i as int)),
            decreases roots.len() - i,
        {
            proof {
                assert(all.take(i + 1).drop_last() =~= all.take(i as int));
            }
            let root = ResponsePathRoot {
                root: roots[i].root.clone(),
                display_root: roots[i].display_root.clone(),
            };
            let count: usize = components(root.root.as_str()).len();
            let ghost before = rows_of(sorted@);
            let ghost p = shallower(depth(root@));
            proof {
                assert(count == depth(root@)) by {
                    assert(parts(root.root@).len() == depth(root@));
                }
            }
            let is_shallower = |other: &ResponsePathRoot| -> (yes: bool)
                ensures
                    yes == p(other@),
                { components(other.root.as_str()).len() < count };
            let place: Option<usize> = position(&sorted, is_shallower, Ghost(p));
            match place {
                Some(k) => {
                    sorted.insert(k, root);
                },
                None => {
                    sorted.push(root);
                },
            }
            proof {
                assert(rows_of(sorted@) =~= placed(before, all[i as int]));
            }
            i = i + 1;
        }
        proof {
            assert(all.take(i as int) =~= all);
        }
        ResponsePathTranslator { roots: sorted }
    }

    /// How a stored path is shown.
    pub fn response_filepath(&self, stored_filepath: &str) -> (shown: String)
        ensures
            shown@ == spec_response_filepath(rows_of(self.roots@), stored_filepath@),
    {
        let ghost views = rows_of(self.roots@);
        let ghost p = holds(stored_filepath@);
        let mut i: usize = 0;
        while i < self.roots.len()
            invariant
                i <= self.roots.len(),
                views == rows_of(self.roots@),
                p == holds(stored_filepath@),
                forall|j: int| 0 <= j < i ==> !p(#[trigger] views[j]),
            decreases self.roots.len() - i,
        {
            let root: &ResponsePathRoot = &self.roots[i];
            proof {
                assert(views[i as int] == root@);
            }
            match strip_prefix(stored_filepath, root.root.as_str()) {
                Some(rest) => {
                    proof {
                        assert(is_first(views, p, i as int));
                        lemma_first_where(views, p, i as int);
                    }
                    return join_display_path(root.display_root.as_str(), rest.as_slice());
                },
                None => {},
            }
            i = i + 1;
        }
        proof {
            lemma_first_where_is_first(views, p);
        }
        stored_filepath.to_owned()
    }
}

/// A path in two roots is shown below the deeper one: no root that holds it is deeper
/// than the one that is chosen.
pub proof fn lemma_deepest_root_wins(roots: Seq<RootView>, path: Seq<char>, other: int)
    requires
        0 <= other < deepest_first(roots).len(),
        holds(path)(deepest_first(roots)[other]),
    ensures
        first_where(deepest_first(roots), holds(path)) matches Some(i) && depth(
            deepest_first(roots)[i],
        ) >= depth(deepest_first(roots)[other]) && parts(deepest_first(roots)[i].root).len()
            >= parts(deepest_first(roots)[other].root).len() && spec_starts_with(
            path,
            deepest_first(roots)[i].root,
        ),
{
    let sorted = deepest_first(roots);
    lemma_deepest_first(roots);
    lemma_first_where_is_first(sorted, holds(path));
    let i = first_where(sorted, holds(path)).unwrap();
    if other < i {
        assert(!holds(path)(sorted[other]));
    }
    if i < other {
        assert(depth(sorted[i]) >= depth(sorted[other]));
    }
}

/// What is shown leads back to what is stored. For a path in a root that lies there by
/// names alone, the components of what is shown are those of the root's name and then all
/// of those of the path below the root.
pub proof fn lemma_shown_leads_back(roots: Seq<RootView>, path: Seq<char>, i: int)
    requires
        first_where(roots, holds(path)) == Some(i),
        0 <= i < roots.len(),
        spec_starts_with(path, roots[i].root),
        roots[i].display_root.len() > 0,
        parts(roots[i].root).len() > 0,
        forall|k: int|
            parts(roots[i].root).len() <= k < parts(path).len() ==> #[trigger] parts(
                path,
            )[k] is Normal,
    ensures
        parts(spec_response_filepath(roots, path)) == parts(roots[i].display_root) + parts(
            path,
        ).subrange(parts(roots[i].root).len() as int, parts(path).len() as int),
        parts(path).len() == parts(roots[i].root).len() ==> spec_response_filepath(roots, path)
            == roots[i].display_root,
{
    let display = roots[i].display_root;
    let n = parts(roots[i].root).len() as int;
    let rest = parts(path).skip(n);
    assert(rest =~= parts(path).subrange(n, parts(path).len() as int));
    assert forall|k: int| 0 <= k < rest.len() implies (
    #[trigger] rest[k] matches PartView::Normal(name) && is_name(name)) by {
        assert(rest[k] == parts(path)[n + k]);
        lemma_names(path, n + k);
    }
    if rest.len() > 0 {
        lemma_joined_names(rest);
        lemma_names_below(display, rest);
    } else {
        assert(rest =~= Seq::<PartView>::empty());
        assert(joined_names(rest).len() == 0);
        assert(parts(display) + rest =~= parts(display));
    }
}

/// Two paths in one root, which lie there by names alone, are shown alike only where they
/// have the same components.
pub proof fn lemma_shown_apart(roots: Seq<RootView>, a: Seq<char>, b: Seq<char>, i: int)
    requires
        first_where(roots, holds(a)) == Some(i),
        first_where(roots, holds(b)) == Some(i),
        0 <= i < roots.len(),
        spec_starts_with(a, roots[i].root),
        spec_starts_with(b, roots[i].root),
        roots[i].display_root.len() > 0,
        parts(roots[i].root).len() > 0,
        forall|k: int|
            parts(roots[i].root).len() <= k < parts(a).len() ==> #[trigger] parts(a)[k] is Normal,
        forall|k: int|
            parts(roots[i].root).len() <= k < parts(b).len() ==> #[trigger] parts(b)[k] is Normal,
        spec_response_filepath(roots, a) == spec_response_filepath(roots, b),
    ensures
        parts(a) == parts(b),
{
    lemma_shown_leads_back(roots, a, i);
    lemma_shown_leads_back(roots, b, i);
    let root = parts(roots[i].root);
    let n = root.len() as int;
    let d = parts(roots[i].display_root);
    let x = parts(a).subrange(n, parts(a).len() as int);
    let y = parts(b).subrange(n, parts(b).len() as int);
    assert(d + x == d + y);
    assert((d + x).skip(d.len() as int) =~= x);
    assert((d + y).skip(d.len() as int) =~= y);
    assert(parts(a) =~= root + x);
    assert(parts(b) =~= root + y);
}

/// A path is shown as it is where no root holds it.
pub proof fn lemma_shown_as_it_is(roots: Seq<RootView>, path: Seq<char>)
    requires
        forall|i: int|
            0 <= i < roots.len() ==> !spec_starts_with(path, (#[trigger] roots[i]).root),
    ensures
        spec_response_filepath(roots, path) == path,
{
    lemma_first_where_is_first(roots, holds(path));
    if let Some(i) = first_where(roots, holds(path)) {
        assert(holds(path)(roots[i]));
    }
}

fn join_display_path(display_root: &str, rest: &[PathPart]) -> (shown: String)
    ensures
        shown@ == displayed(display_root@, parts_view(rest@)),
{
    let relative: String = join_names(rest);
    if relative.as_str().is_empty() {
        return display_root.to_owned();
    }
    let root: Vec<char> = chars_of(display_root);
    let mut shown: String = display_root.to_owned();
    if root.len() == 0 || root[root.len() - 1] != '/' {
        shown.push('/');
    }
    shown.append(relative.as_str());
    shown
}

/// `path` with `/` for each `\`.
pub open spec fn forward_slashes(path: Seq<char>) -> Seq<char> {
    path.map_values(
        |c: char|
            if c == '\\' {
                '/'
            } else {
                c
            },
    )
}

/// A drive of Windows: one letter, a colon and a `/`, each of one byte.
pub open spec fn windows_drive_root(path: Seq<char>) -> bool {
    path.len() == 3 && path[0] as u32 <= 0x7f && path[1] == ':' && path[2] == '/'
}

/// `path` without `/` at its end, unless nothing else would be left or it is a drive.
pub open spec fn trimmed_root(path: Seq<char>) -> Seq<char>
    decreases path.len(),
{
    if path.len() > 1 && path.last() == '/' && !windows_drive_root(path) {
        trimmed_root(path.drop_last())
    } else {
        path
    }
}

/// The name under which a root is shown: its path with `/` between its components and
/// none at its end, or `.` for an empty path.
pub open spec fn spec_display_path_root(path: Seq<char>) -> Seq<char> {
    if path.len() == 0 {
        seq!['.']
    } else {
        trimmed_root(forward_slashes(path))
    }
}

fn is_windows_drive_root(path: &[char]) -> (yes: bool)
    ensures
        yes == windows_drive_root(path@),
{
    path.len() == 3 && path[0] as u32 <= 0x7f && path[1] == ':' && path[2] == '/'
}

fn trim_display_root(path: &[char]) -> (trimmed: &[char])
    ensures
        trimmed@ == trimmed_root(path@),
{
    let mut end: usize = path.len();
    proof {
        assert(path@.take(end as int) =~= path@);
    }
    while end > 1 && path[end - 1] == '/' && !is_windows_drive_root(
        vstd::slice::slice_subrange(path, 0, end),
    )
        invariant
            end <= path.len(),
            trimmed_root(path@) == trimmed_root(path@.take(end as int)),
        decreases end,
    {
        proof {
            assert(path@.take(end as int) =~= path@.subrange(0, end as int));
            assert(path@.take(end as int).drop_last() =~= path@.take(end - 1));
        }
        end = end - 1;
    }
    proof {
        assert(path@.take(end as int) =~= path@.subrange(0, end as int));
    }
    vstd::slice::slice_subrange(path, 0, end)
}

/// The name under which the root `path` is shown.
pub fn display_path_root(path: &str) -> (shown: String)
    ensures
        shown@ == spec_display_path_root(path@),
{
    let mut chars: Vec<char> = chars_of(path);
    if chars.len() == 0 {
        let mut shown = String::new();
        shown.push('.');
        proof {
            assert(shown@ =~= seq!['.']);
        }
        return shown;
    }
    let ghost after = forward_slashes(path@);
    let mut i: usize = 0;
    while i < chars.len()
        invariant
            i <= chars.len(),
            chars@.len() == path@.len(),
            after == forward_slashes(path@),
            forall|j: int| 0 <= j < i ==> chars@[j] == after[j],
            forall|j: int| i <= j < chars@.len() ==> chars@[j] == path@[j],
        decreases chars.len() - i,
    {
        if chars[i] == '\\' {
            chars.set(i, '/');
        }
        i = i + 1;
    }
    proof {
        assert(chars@ =~= after);
    }
    string_of(trim_display_root(chars.as_slice()))
}

/// The name under which a root is shown leads to the same place: it has the components of
/// the path, read with `/` for each `\\`. It holds no `\\`, and no `/` at its end unless it
/// is nothing else or a drive.
pub proof fn lemma_display_root(path: Seq<char>)
    requires
        path.len() > 0,
    ensures
        ({
            let shown = spec_display_path_root(path);
            &&& shown.len() > 0
            &&& parts(shown) == parts(forward_slashes(path))
            &&& forall|i: int| 0 <= i < shown.len() ==> #[trigger] shown[i] != '\\'
            &&& shown.last() == '/' ==> shown.len() == 1 || shown.len() == 3 && shown[1] == ':'
            &&& shown == forward_slashes(path).take(shown.len() as int)
            &&& forall|i: int|
                shown.len() <= i < path.len() ==> #[trigger] forward_slashes(path)[i] == '/'
        }),
{
    lemma_trimmed_root(forward_slashes(path));
}

proof fn lemma_trimmed_root(path: Seq<char>)
    requires
        path.len() > 0,
    ensures
        ({
            let shown = trimmed_root(path);
            &&& 0 < shown.len() <= path.len()
            &&& parts(shown) == parts(path)
            &&& shown == path.take(shown.len() as int)
            &&& shown.last() == '/' ==> shown.len() == 1 || shown.len() == 3 && shown[1] == ':'
            &&& forall|i: int| shown.len() <= i < path.len() ==> #[trigger] path[i] == '/'
        }),
    decreases path.len(),
{
    if path.len() > 1 && path.last() == '/' && !windows_drive_root(path) {
        let head = path.drop_last();
        lemma_trimmed_root(head);
        let shown = trimmed_root(path);
        assert(head.push('/') =~= path);
        let name = seq!['a'];
        assert(name[0] == 'a');
        assert(name != seq!['.']) by {
            assert(seq!['.'][0] == '.');
        }
        assert(name.len() != seq!['.', '.'].len());
        lemma_next_component(head, name);
        assert(head.take(shown.len() as int) =~= path.take(shown.len() as int));
        assert forall|i: int| shown.len() <= i < path.len() implies #[trigger] path[i] == '/' by {
            if i < head.len() {
                assert(head[i] == path[i]);
            }
        }
    } else {
        assert(path.take(path.len() as int) =~= path);
    }
}

} // verus!
