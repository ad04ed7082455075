//! Which paths lead to the same file.
//!
//! Paths are lists of texts that are pushed one after another. `/` separates names.
use crate::text::{
    chars_of, same_texts, split, split_append, split_is_not_empty, split_separator, split_text, texts,
};
use vstd::prelude::*;
use vstd::string::*;

verus! {

/// Whether the path `text` starts at the root.
pub open spec fn is_rooted(text: Seq<char>) -> bool {
    text.len() > 0 && text[0] == '/'
}

/// The path `text` after `part` was pushed: a part that starts at the root replaces the path,
/// another part is appended after a separator.
pub open spec fn pushed(text: Seq<char>, part: Seq<char>) -> Seq<char> {
    if is_rooted(part) {
        part
    } else if text.len() == 0 || text.last() == '/' {
        text + part
    } else {
        text.push('/') + part
    }
}

/// The texts of `path` as one text.
pub open spec fn path_text(path: Seq<Seq<char>>) -> Seq<char>
    decreases path.len(),
{
    if path.len() == 0 {
        Seq::empty()
    } else {
        pushed(path_text(path.drop_last()), path.last())
    }
}

/// Whether `part` names a file or a directory: it is not empty, and not the directory `.`.
pub open spec fn is_name(part: Seq<char>) -> bool {
    part.len() > 0 && part != "."@
}

/// What a path consists of.
pub ghost struct PathData {
    /// Whether the path starts at the root.
    pub is_rooted: bool,
    /// Whether the path starts with `.`.
    pub is_relative_to_here: bool,
    /// The names in the path.
    pub names: Seq<Seq<char>>,
}

/// What the path `path` consists of. Repeated separators, a separator at the end,
/// and every `.` but one at the beginning do not matter.
pub open spec fn path_data(path: Seq<Seq<char>>) -> PathData {
    let parts = split(path_text(path), '/');
    PathData {
        is_rooted: is_rooted(path_text(path)),
        is_relative_to_here: parts[0] == "."@,
        names: parts.filter(|part: Seq<char>| is_name(part)),
    }
}

/// Whether the paths `a` and `b` are the same.
pub open spec fn same_path(a: Seq<Seq<char>>, b: Seq<Seq<char>>) -> bool {
    path_data(a) == path_data(b)
}

/// Joins the texts of a path.
fn join_path(path: &Vec<String>) -> (res: String)
    ensures
        res@ == path_text(texts(path@)),
{
    let ghost all = texts(path@);
    let mut text = String::new();
    let mut needs_separator: bool = false;
    let mut i: usize = 0;
    assert(all.take(0) =~= Seq::empty());
    assert(text@ =~= Seq::empty());
    while i < path.len()
        invariant
            i <= path.len(),
            all == texts(path@),
            text@ == path_text(all.take(i as int)),
            needs_separator == (text@.len() > 0 && text@.last() != '/'),
        decreases path.len() - i,
    {
        let part = path[i].as_str();
        let chars = chars_of(part);
        proof {
            assert(all.take(i + 1).drop_last() =~= all.take(i as int));
            assert(all.take(i + 1).last() == part@);
        }
        let ghost before = text@;
        if chars.len() > 0 && chars[0] == '/' {
            text = path[i].clone();
        } else {
            if needs_separator {
                text.push('/');
            }
            text.append(part);
        }
        assert(text@ =~= pushed(before, part@));
        if chars.len() > 0 {
            assert(text@.last() == part@.last());
            needs_separator = chars[chars.len() - 1] != '/';
        } else {
            needs_separator = false;
        }
        i += 1;
    }
    assert(all.take(i as int) =~= all);
    text
}

/// What a path consists of.
struct PathKey {
    is_rooted: bool,
    is_relative_to_here: bool,
    names: Vec<String>,
}

/// Takes a path apart.
fn path_key(path: &Vec<String>) -> (res: PathKey)
    ensures
        res.is_rooted == path_data(texts(path@)).is_rooted,
        res.is_relative_to_here == path_data(texts(path@)).is_relative_to_here,
        texts(res.names@) == path_data(texts(path@)).names,
{
    let here = String::from_str(".");
    let text = join_path(path);
    let chars = chars_of(text.as_str());
    let parts = split_text(text.as_str(), '/');
    let ghost all = split(text@, '/');
    let ghost keep = |part: Seq<char>| is_name(part);
    let mut names: Vec<String> = Vec::new();
    let mut i: usize = 0;
    proof {
        reveal(Seq::filter);
        split_is_not_empty(text@, '/');
        assert(all.take(0) =~= Seq::empty());
        assert(all[0] == parts@[0]@);
    }
    while i < parts.len()
        invariant
            i <= parts.len(),
            here@ == "."@,
            all == texts(parts@),
            keep == (|part: Seq<char>| is_name(part)),
            texts(names@) =~= all.take(i as int).filter(keep),
        decreases parts.len() - i,
    {
        proof {
            reveal(Seq::filter);
            assert(all.take(i + 1).drop_last() =~= all.take(i as int));
            assert(all.take(i + 1).last() == parts@[i as int]@);
        }
        if !parts[i].as_str().is_empty() && parts[i] != here {
            let ghost before = names@;
            names.push(parts[i].clone());
            assert(texts(names@) =~= texts(before).push(parts@[i as int]@));
        }
        i += 1;
    }
    assert(all.take(i as int) =~= all);
    PathKey {
        is_rooted: chars.len() > 0 && chars[0] == '/',
        is_relative_to_here: parts[0] == here,
        names,
    }
}

/// Tests [`same_path`].
pub fn test_same_path(a: &Vec<String>, b: &Vec<String>) -> (res: bool)
    ensures
        res == same_path(texts(a@), texts(b@)),
{
    let x = path_key(a);
    let y = path_key(b);
    x.is_rooted == y.is_rooted && x.is_relative_to_here == y.is_relative_to_here && same_texts(
        &x.names,
        &y.names,
    )
}

/// Whether `path` consists of names without separators.
pub open spec fn is_plain(path: Seq<Seq<char>>) -> bool {
    forall|i: int|
        0 <= i < path.len() ==> is_name(#[trigger] path[i]) && !path[i].contains('/')
}

/// The parts of a plain path are its names.
proof fn plain_parts(path: Seq<Seq<char>>)
    requires
        is_plain(path),
        path.len() > 0,
    ensures
        split(path_text(path), '/') == path,
        path_text(path).len() > 0,
        path_text(path).last() != '/',
        !is_rooted(path_text(path)),
    decreases path.len(),
{
    let front = path.drop_last();
    let last = path.last();
    let text = path_text(front);
    assert(path[path.len() - 1] == last);
    assert forall|i: int| 0 <= i < last.len() implies #[trigger] last[i] != '/' by {
        assert(last.contains(last[i]));
    }
    assert(!is_rooted(last));
    if front.len() == 0 {
        let none = Seq::<char>::empty();
        split_append(none, last, '/');
        assert(none + last =~= last);
        assert(split(none, '/') =~= seq![none]);
        assert(split(last, '/') =~= path);
    } else {
        assert forall|i: int| 0 <= i < front.len() implies is_name(#[trigger] front[i])
            && !front[i].contains('/') by {
            assert(path[i] == front[i]);
        }
        plain_parts(front);
        split_separator(text, '/');
        split_append(text.push('/'), last, '/');
        assert(front.push(Seq::empty()).drop_last() =~= front);
        assert(Seq::<char>::empty() + last =~= last);
        assert(front.push(last) =~= path);
    }
}

/// A filter keeps all if it lets all pass.
proof fn filter_keeps_all(path: Seq<Seq<char>>)
    requires
        is_plain(path),
    ensures
        path.filter(|part: Seq<char>| is_name(part)) == path,
    decreases path.len(),
{
    reveal(Seq::filter);
    if path.len() > 0 {
        let front = path.drop_last();
        assert forall|i: int| 0 <= i < front.len() implies is_name(#[trigger] front[i])
            && !front[i].contains('/') by {
            assert(path[i] == front[i]);
        }
        filter_keeps_all(front);
        assert(is_name(path[path.len() - 1]));
        assert(front.push(path.last()) =~= path);
    }
}

/// Paths of names without separators are the same only if they are equal.
pub proof fn plain_paths_differ(a: Seq<Seq<char>>, b: Seq<Seq<char>>)
    requires
        is_plain(a),
        is_plain(b),
        a.len() > 0,
        b.len() > 0,
    ensures
        same_path(a, b) <==> a == b,
{
    plain_parts(a);
    plain_parts(b);
    filter_keeps_all(a);
    filter_keeps_all(b);
}

/// Whether `path` consists of texts that are not empty, not `.`, and have no `/` in them.
pub open spec fn is_list_of_names(path: Seq<Seq<char>>) -> bool {
    forall|i: int|
        0 <= i < path.len() ==> (#[trigger] path[i]).len() > 0 && path[i] != seq!['.']
            && !path[i].contains('/')
}

proof fn names_are_plain(path: Seq<Seq<char>>)
    requires
        is_list_of_names(path),
    ensures
        is_plain(path),
{
    reveal_strlit(".");
    assert("."@ =~= seq!['.']);
}

/// Lists of names are the same path only if they are equal.
pub proof fn names_make_the_path(a: Seq<Seq<char>>, b: Seq<Seq<char>>)
    requires
        is_list_of_names(a),
        is_list_of_names(b),
        a.len() > 0,
        b.len() > 0,
    ensures
        same_path(a, b) <==> a == b,
{
    names_are_plain(a);
    names_are_plain(b);
    plain_paths_differ(a, b);
}

/// The same path is the same path, both ways, and from path to path.
pub proof fn same_path_is_equivalence(a: Seq<Seq<char>>, b: Seq<Seq<char>>, c: Seq<Seq<char>>)
    ensures
        same_path(a, a),
        same_path(a, b) ==> same_path(b, a),
        same_path(a, b) && same_path(b, c) ==> same_path(a, c),
{
}

/// A text with `/` in it is the same as the texts around the `/`.
pub proof fn separator_separates(path: Seq<Seq<char>>, a: Seq<char>, b: Seq<char>)
    requires
        a.len() > 0,
        a.last() != '/',
        b.len() > 0 ==> b[0] != '/',
    ensures
        same_path(path.push(a.push('/') + b), path.push(a).push(b)),
{
    let text = path_text(path);
    let whole = a.push('/') + b;
    assert(path.push(whole).drop_last() =~= path);
    assert(path.push(a).drop_last() =~= path);
    assert(path.push(a).push(b).drop_last() =~= path.push(a));
    assert(whole[0] == a[0]);
    let first = pushed(text, a);
    assert(first.last() == a.last());
    assert(path_text(path.push(a)) == first);
    assert(path_text(path.push(a).push(b)) == pushed(first, b));
    assert(path_text(path.push(whole)) == pushed(text, whole));
    assert(pushed(text, whole) =~= pushed(first, b));
}

/// A text that starts with `/` leaves nothing of what stands before it.
pub proof fn root_starts_again(path: Seq<Seq<char>>, root: Seq<char>)
    requires
        root.len() > 0,
        root[0] == '/',
    ensures
        same_path(path.push(root), seq![root]),
{
    assert(path.push(root).drop_last() =~= path);
    assert(seq![root].drop_last() =~= Seq::empty());
}

/// A path that starts with `/` is not the same as a list of names.
pub proof fn root_matters(root: Seq<char>, path: Seq<Seq<char>>)
    requires
        root.len() > 0,
        root[0] == '/',
        is_list_of_names(path),
        path.len() > 0,
    ensures
        !same_path(seq![root], path),
{
    names_are_plain(path);
    plain_parts(path);
    assert(seq![root].drop_last() =~= Seq::empty());
    assert(path_text(seq![root]) == root);
}

proof fn trailing_part(path: Seq<Seq<char>>, part: Seq<char>)
    requires
        is_plain(path),
        path.len() > 0,
        !part.contains('/'),
    ensures
        split(path_text(path.push(part)), '/') == path.push(part),
        !is_rooted(path_text(path.push(part))),
{
    let text = path_text(path);
    plain_parts(path);
    assert(path.push(part).drop_last() =~= path);
    assert forall|i: int| 0 <= i < part.len() implies #[trigger] part[i] != '/' by {
        assert(part.contains(part[i]));
    }
    split_separator(text, '/');
    split_append(text.push('/'), part, '/');
    assert(path.push(Seq::empty()).drop_last() =~= path);
    assert(Seq::<char>::empty() + part =~= part);
    assert(path_text(path.push(part))[0] == text[0]);
}

/// A `.` or nothing after a name does not matter.
pub proof fn trailing_dot_does_not_matter(path: Seq<Seq<char>>)
    requires
        is_list_of_names(path),
        path.len() > 0,
    ensures
        same_path(path.push(seq!['.']), path),
        same_path(path.push(Seq::empty()), path),
{
    reveal(Seq::filter);
    reveal_strlit(".");
    names_are_plain(path);
    plain_parts(path);
    let dot = seq!['.'];
    let none = Seq::<char>::empty();
    assert("."@ =~= dot);
    trailing_part(path, dot);
    trailing_part(path, none);
    assert(path.push(dot).drop_last() =~= path);
    assert(path.push(none).drop_last() =~= path);
    assert(!is_name(dot) && !is_name(none));
    assert(path.push(dot)[0] == path[0] && path.push(none)[0] == path[0]);
}

/// A `.` before the first name matters.
pub proof fn leading_dot_matters(path: Seq<Seq<char>>)
    requires
        is_list_of_names(path),
        path.len() > 0,
    ensures
        !same_path(seq![seq!['.']] + path, path),
{
    reveal_strlit(".");
    names_are_plain(path);
    plain_parts(path);
    let dot = seq!['.'];
    assert("."@ =~= dot);
    assert(path[0] != dot);
    leading_dot_parts(path);
    assert((seq![dot] + path)[0] == dot);
}

proof fn leading_dot_parts(path: Seq<Seq<char>>)
    requires
        is_plain(path),
    ensures
        split(path_text(seq![seq!['.']] + path), '/') == seq![seq!['.']] + path,
        path_text(seq![seq!['.']] + path).len() > 0,
        path_text(seq![seq!['.']] + path).last() != '/',
    decreases path.len(),
{
    let dot = seq!['.'];
    let all = seq![dot] + path;
    let none = Seq::<char>::empty();
    if path.len() == 0 {
        assert(all =~= seq![dot]);
        assert(all.drop_last() =~= Seq::empty());
        assert(none + dot =~= dot);
        split_append(none, dot, '/');
        assert(split(none, '/') =~= seq![none]);
        assert(split(dot, '/') =~= seq![dot]);
        assert(path_text(all.drop_last()) =~= none);
        assert(all.last() == dot);
        assert(pushed(none, dot) =~= dot);
        assert(path_text(all) == dot);
    } else {
        let front = path.drop_last();
        let last = path.last();
        assert forall|i: int| 0 <= i < front.len() implies is_name(#[trigger] front[i])
            && !front[i].contains('/') by {
            assert(path[i] == front[i]);
        }
        leading_dot_parts(front);
        assert(path[path.len() - 1] == last);
        assert forall|i: int| 0 <= i < last.len() implies #[trigger] last[i] != '/' by {
            assert(last.contains(last[i]));
        }
        let before = seq![dot] + front;
        assert(all.drop_last() =~= before);
        let text = path_text(before);
        assert(path_text(all) == text.push('/') + last);
        split_separator(text, '/');
        split_append(text.push('/'), last, '/');
        assert(before.push(none).drop_last() =~= before);
        assert(none + last =~= last);
        assert(before.push(last) =~= all);
        assert(split(path_text(all), '/') == before.push(last));
    }
}

proof fn rooted_parts(path: Seq<Seq<char>>)
    requires
        is_plain(path),
        path.len() > 0,
    ensures
        path_text(seq![seq!['/']] + path) == seq!['/'] + path_text(path),
        split(path_text(seq![seq!['/']] + path), '/') == seq![Seq::<char>::empty()] + path,
    decreases path.len(),
{
    let root = seq!['/'];
    let all = seq![root] + path;
    let none = Seq::<char>::empty();
    let front = path.drop_last();
    let last = path.last();
    assert(path[path.len() - 1] == last);
    assert forall|i: int| 0 <= i < last.len() implies #[trigger] last[i] != '/' by {
        assert(last.contains(last[i]));
    }
    assert(all.drop_last() =~= seq![root] + front);
    assert(all.last() == last);
    if front.len() == 0 {
        assert(all.drop_last() =~= seq![root]);
        assert(seq![root].drop_last() =~= Seq::empty());
        assert(path_text(seq![root].drop_last()) =~= none);
        assert(path_text(seq![root]) == root);
        assert(path_text(front) =~= none);
        assert(path_text(path) =~= last);
        assert(path_text(all) =~= root + last);
        split_separator(none, '/');
        assert(none.push('/') =~= root);
        assert(split(none, '/') =~= seq![none]);
        split_append(root, last, '/');
        assert(none + last =~= last);
        assert(seq![none].push(none).drop_last() =~= seq![none]);
        assert(seq![none].push(last) =~= seq![none] + path);
    } else {
        assert forall|i: int| 0 <= i < front.len() implies is_name(#[trigger] front[i])
            && !front[i].contains('/') by {
            assert(path[i] == front[i]);
        }
        rooted_parts(front);
        plain_parts(front);
        let text = path_text(seq![root] + front);
        assert(text.last() == path_text(front).last());
        assert(path_text(all) == text.push('/') + last);
        assert(path_text(path) == path_text(front).push('/') + last);
        assert(text.push('/') + last =~= root + path_text(path));
        split_separator(text, '/');
        split_append(text.push('/'), last, '/');
        let before = seq![none] + front;
        assert(before.push(none).drop_last() =~= before);
        assert(none + last =~= last);
        assert(before.push(last) =~= seq![none] + path);
    }
}

/// Lists of names that start at the root are the same path only if they are equal.
pub proof fn names_make_the_rooted_path(a: Seq<Seq<char>>, b: Seq<Seq<char>>)
    requires
        is_list_of_names(a),
        is_list_of_names(b),
        a.len() > 0,
        b.len() > 0,
    ensures
        same_path(seq![seq!['/']] + a, seq![seq!['/']] + b) <==> a == b,
{
    names_are_plain(a);
    names_are_plain(b);
    rooted_parts(a);
    rooted_parts(b);
    let none = Seq::<char>::empty();
    skipped_by_filter(none, a);
    skipped_by_filter(none, b);
    filter_keeps_all(a);
    filter_keeps_all(b);
    if same_path(seq![seq!['/']] + a, seq![seq!['/']] + b) {
        assert(path_data(seq![seq!['/']] + a).names == a);
        assert(path_data(seq![seq!['/']] + b).names == b);
    }
}

/// A filter drops a part that is no name.
proof fn skipped_by_filter(part: Seq<char>, path: Seq<Seq<char>>)
    requires
        !is_name(part),
    ensures
        (seq![part] + path).filter(|p: Seq<char>| is_name(p)) == path.filter(
            |p: Seq<char>| is_name(p),
        ),
    decreases path.len(),
{
    reveal(Seq::filter);
    let all = seq![part] + path;
    if path.len() > 0 {
        skipped_by_filter(part, path.drop_last());
        assert(all.drop_last() =~= seq![part] + path.drop_last());
    } else {
        assert(all.drop_last() =~= Seq::<Seq<char>>::empty());
        assert(all.drop_last().filter(|p: Seq<char>| is_name(p)) =~= Seq::empty());
    }
}

/// Lists of names that start with `.` are the same path only if they are equal.
pub proof fn names_make_the_dotted_path(a: Seq<Seq<char>>, b: Seq<Seq<char>>)
    requires
        is_list_of_names(a),
        is_list_of_names(b),
    ensures
        same_path(seq![seq!['.']] + a, seq![seq!['.']] + b) <==> a == b,
{
    reveal_strlit(".");
    let dot = seq!['.'];
    assert("."@ =~= dot);
    names_are_plain(a);
    names_are_plain(b);
    leading_dot_parts(a);
    leading_dot_parts(b);
    skipped_by_filter(dot, a);
    skipped_by_filter(dot, b);
    filter_keeps_all(a);
    filter_keeps_all(b);
    if same_path(seq![dot] + a, seq![dot] + b) {
        assert(path_data(seq![dot] + a).names == a);
        assert(path_data(seq![dot] + b).names == b);
    }
}

/// A separator more does not matter.
pub proof fn repeated_separator_does_not_matter(path: Seq<Seq<char>>, name: Seq<char>)
    requires
        is_list_of_names(path.push(name)),
        path.len() > 0,
    ensures
        same_path(seq![path_text(path).push('/').push('/') + name], path.push(name)),
{
    reveal(Seq::filter);
    let all = path.push(name);
    let none = Seq::<char>::empty();
    let text = path_text(path);
    let long = text.push('/').push('/') + name;
    names_are_plain(all);
    assert forall|i: int| 0 <= i < path.len() implies is_name(#[trigger] path[i])
        && !path[i].contains('/') by {
        assert(all[i] == path[i]);
    }
    assert(all[path.len() as int] == name);
    plain_parts(path);
    plain_parts(all);
    assert(all.drop_last() =~= path);
    assert forall|i: int| 0 <= i < name.len() implies #[trigger] name[i] != '/' by {
        assert(name.contains(name[i]));
    }
    assert(seq![long].drop_last() =~= Seq::empty());
    assert(path_text(seq![long].drop_last()) =~= none);
    assert(long[0] == text[0]);
    assert(none + long =~= long);
    assert(path_text(seq![long]) == long);
    split_separator(text, '/');
    split_separator(text.push('/'), '/');
    split_append(text.push('/').push('/'), name, '/');
    let parts = path.push(none).push(name);
    assert(path.push(none).push(none).drop_last() =~= path.push(none));
    assert(none + name =~= name);
    assert(split(long, '/') == parts);
    assert(parts.drop_last() =~= path.push(none));
    assert(path.push(none).drop_last() =~= path);
    assert(parts[0] == all[0]);
    assert(path_text(all)[0] == text[0]);
    let keep = |part: Seq<char>| is_name(part);
    assert(!is_name(none));
    assert(path.push(none).filter(keep) == path.filter(keep));
    assert(parts.filter(keep) == path.filter(keep).push(name));
    assert(all.filter(keep) == path.filter(keep).push(name));
    assert(path_data(seq![long]).names == path_data(all).names);
    assert(path_data(seq![long]) == path_data(all));
}

} // verus!
