//! File system paths as byte strings.
use vstd::prelude::*;
use crate::text::{copy_bytes, joined, split_bytes, split_on, split_parts_hold_no_separator};

verus! {

/// Whether a path begins at the root.
pub open spec fn is_rooted(path: Seq<u8>) -> bool {
    path.len() > 0 && path[0] == 47u8
}

/// Whether a part of a path, at place `i`, is one of its components: it is not
/// empty, and it is a single dot only at the beginning.
pub open spec fn is_component(part: Seq<u8>, i: int) -> bool {
    part.len() > 0 && (part == seq![46u8] ==> i == 0)
}

/// The components among the parts of a path.
pub open spec fn components_of(parts: Seq<Seq<u8>>) -> Seq<Seq<u8>>
    decreases parts.len(),
{
    if parts.len() == 0 {
        Seq::empty()
    } else if is_component(parts.last(), parts.len() - 1) {
        components_of(parts.drop_last()).push(parts.last())
    } else {
        components_of(parts.drop_last())
    }
}

/// The components of a path. Repeated separators, a trailing one, and dots
/// other than a leading one are of no account.
pub open spec fn components(path: Seq<u8>) -> Seq<Seq<u8>> {
    components_of(split_on(path, 47u8))
}

/// The plainest spelling of a path, which is the same for any two paths with
/// the same components.
pub open spec fn path_key(path: Seq<u8>) -> Seq<u8> {
    if is_rooted(path) {
        seq![47u8] + joined(components(path), 47u8)
    } else {
        joined(components(path), 47u8)
    }
}

/// The plainest spelling of each path.
pub open spec fn path_keys(paths: Seq<Seq<u8>>) -> Seq<Seq<u8>> {
    paths.map_values(|p: Seq<u8>| path_key(p))
}

/// The plainest spelling of `path`.
pub fn plain_path(path: &[u8]) -> (key: Vec<u8>)
    ensures
        key@ == path_key(path@),
{
    let parts = split_bytes(path, 47);
    let ghost split = split_on(path@, 47u8);
    let mut key: Vec<u8> = Vec::new();
    if path.len() > 0 && path[0] == 47 {
        key.push(47);
    }
    let ghost root = key@;
    let mut first = true;
    let mut i: usize = 0;
    proof {
        assert(split.take(0) == Seq::<Seq<u8>>::empty());
        assert(key@ == root + joined(components_of(split.take(0)), 47u8));
    }
    while i < parts.len()
        invariant
            i <= parts@.len(),
            split == parts@.map_values(|p: Vec<u8>| p@),
            key@ == root + joined(components_of(split.take(i as int)), 47u8),
            first == (components_of(split.take(i as int)).len() == 0),
        decreases parts@.len() - i,
    {
        let part = &parts[i];
        let ghost before = components_of(split.take(i as int));
        let dot = part.len() == 1 && part[0] == 46;
        proof {
            assert(split.take(i + 1).drop_last() == split.take(i as int));
            assert(split.take(i + 1).last() == part@);
            assert(dot == (part@ == seq![46u8])) by {
                if dot {
                    assert(part@ =~= seq![46u8]);
                }
            }
        }
        if part.len() > 0 && (!dot || i == 0) {
            proof {
                assert(before.push(part@).drop_last() == before);
                assert(joined(before.push(part@), 47u8) == (if first {
                    part@
                } else {
                    joined(before, 47u8).push(47u8) + part@
                }));
            }
            if !first {
                key.push(47);
            }
            first = false;
            let mut name = copy_bytes(part.as_slice());
            key.append(&mut name);
            proof {
                assert(key@ =~= root + joined(before.push(part@), 47u8));
            }
        }
        i += 1;
    }
    proof {
        assert(split.take(split.len() as int) == split);
        if !is_rooted(path@) {
            assert(root + joined(components(path@), 47u8) =~= joined(components(path@), 47u8));
        }
    }
    key
}

proof fn lemma_components_are_names(parts: Seq<Seq<u8>>)
    requires
        forall|i: int| 0 <= i < parts.len() ==> !(#[trigger] parts[i]).contains(47u8),
    ensures
        forall|i: int|
            0 <= i < components_of(parts).len() ==> (#[trigger] components_of(parts)[i]).len() > 0
                && !components_of(parts)[i].contains(47u8),
    decreases parts.len(),
{
    if parts.len() > 0 {
        let front = parts.drop_last();
        assert forall|i: int| 0 <= i < front.len() implies !(#[trigger] front[i]).contains(47u8) by {
            assert(!parts[i].contains(47u8));
        }
        assert(!parts[parts.len() - 1].contains(47u8));
        lemma_components_are_names(front);
        let names = components_of(parts);
        let fewer = components_of(front);
        assert forall|i: int| 0 <= i < names.len() implies (#[trigger] names[i]).len() > 0
            && !names[i].contains(47u8) by {
            if i < fewer.len() {
                assert(names[i] == fewer[i]);
            }
        }
    }
}

proof fn lemma_joined_names(names: Seq<Seq<u8>>)
    requires
        names.len() > 0,
        forall|i: int|
            0 <= i < names.len() ==> (#[trigger] names[i]).len() > 0 && !names[i].contains(47u8),
    ensures
        joined(names, 47u8).len() > 0,
        joined(names, 47u8)[0] != 47u8,
    decreases names.len(),
{
    assert(names[0].len() > 0 && !names[0].contains(47u8));
    assert(names[0].contains(names[0][0]));
    if names.len() > 1 {
        let front = names.drop_last();
        assert forall|i: int| 0 <= i < front.len() implies (#[trigger] front[i]).len() > 0
            && !front[i].contains(47u8) by {
            assert(names[i].len() > 0);
        }
        lemma_joined_names(front);
    }
}

/// Two paths have the same key exactly when both begin at the root or neither
/// does, and they have the same components.
pub proof fn same_key_means_same_components(a: Seq<u8>, b: Seq<u8>)
    ensures
        path_key(a) == path_key(b) <==> is_rooted(a) == is_rooted(b) && components(a) == components(
            b,
        ),
{
    lemma_key_of_names(a);
    lemma_key_of_names(b);
    if path_key(a) == path_key(b) {
        let x = joined(components(a), 47u8);
        let y = joined(components(b), 47u8);
        if is_rooted(a) {
            assert(path_key(a).skip(1) =~= x);
            assert(path_key(b).skip(1) =~= y);
        }
        assert(x == y);
        if components(a).len() == 0 {
            assert(components(a) =~= components(b));
        } else {
            crate::text::split_undoes_join(components(a), 47u8);
            crate::text::split_undoes_join(components(b), 47u8);
        }
    }
}

proof fn lemma_key_of_names(path: Seq<u8>)
    ensures
        is_rooted(path) == is_rooted(path_key(path)),
        components(path).len() == 0 <==> joined(components(path), 47u8).len() == 0,
        forall|i: int|
            0 <= i < components(path).len() ==> !(#[trigger] components(path)[i]).contains(47u8),
{
    split_parts_hold_no_separator(path, 47u8);
    lemma_components_are_names(split_on(path, 47u8));
    if components(path).len() > 0 {
        lemma_joined_names(components(path));
    }
}

/// Whether `names` can be the names in a path: none is empty, is a single dot,
/// or holds a slash.
pub open spec fn are_names(names: Seq<Seq<u8>>) -> bool {
    forall|i: int|
        0 <= i < names.len() ==> (#[trigger] names[i]).len() > 0 && !names[i].contains(47u8)
            && names[i] != seq![46u8]
}

/// The components of names with slashes between them are those names, with and
/// without a leading slash.
pub proof fn components_are_the_names(names: Seq<Seq<u8>>)
    requires
        are_names(names),
    ensures
        components(seq![47u8] + joined(names, 47u8)) == names,
        components(joined(names, 47u8)) == names,
        is_rooted(seq![47u8] + joined(names, 47u8)),
        !is_rooted(joined(names, 47u8)),
{
    let path = joined(names, 47u8);
    let nothing = Seq::<u8>::empty();
    crate::text::split_around_a_separator(nothing, path, 47u8);
    assert(nothing + seq![47u8] + path =~= seq![47u8] + path);
    assert(split_on(nothing, 47u8) =~= seq![nothing]);
    if names.len() == 0 {
        assert(path =~= nothing);
        reveal_with_fuel(components_of, 3);
        let two = seq![nothing] + seq![nothing];
        assert(two.drop_last() =~= seq![nothing]);
        assert(seq![nothing].drop_last() =~= Seq::<Seq<u8>>::empty());
        assert(components_of(seq![nothing]) =~= names);
        assert(components_of(two) =~= names);
    } else {
        crate::text::split_undoes_join(names, 47u8);
        lemma_names_are_components(Seq::empty(), names);
        lemma_names_are_components(seq![nothing], names);
        assert(Seq::<Seq<u8>>::empty() + names =~= names);
        assert(components_of(Seq::<Seq<u8>>::empty()) + names =~= names);
        assert(seq![nothing].drop_last() =~= Seq::<Seq<u8>>::empty());
        assert(components_of(seq![nothing]) =~= Seq::<Seq<u8>>::empty());
        assert(components_of(seq![nothing]) + names =~= names);
        lemma_joined_names(names);
    }
}

proof fn lemma_names_are_components(parts: Seq<Seq<u8>>, names: Seq<Seq<u8>>)
    requires
        are_names(names),
    ensures
        components_of(parts + names) == components_of(parts) + names,
    decreases names.len(),
{
    if names.len() == 0 {
        assert(parts + names =~= parts);
        assert(components_of(parts) + names =~= components_of(parts));
    } else {
        let fewer = names.drop_last();
        assert forall|i: int| 0 <= i < fewer.len() implies (#[trigger] fewer[i]).len() > 0
            && !fewer[i].contains(47u8) && fewer[i] != seq![46u8] by {
            assert(names[i].len() > 0);
        }
        lemma_names_are_components(parts, fewer);
        assert((parts + names).drop_last() =~= parts + fewer);
        assert(names[names.len() - 1].len() > 0);
        assert(components_of(parts + names) =~= components_of(parts) + names);
    }
}

/// A path goes on after a slash: a name is one more component, while nothing
/// (as after a trailing or doubled slash) and a single dot are none.
pub proof fn components_after_a_slash(path: Seq<u8>, part: Seq<u8>)
    requires
        !part.contains(47u8),
    ensures
        part.len() > 0 && part != seq![46u8] ==> components(path + seq![47u8] + part) == components(
            path,
        ).push(part),
        part.len() == 0 || part == seq![46u8] ==> components(path + seq![47u8] + part)
            == components(path),
        components(part) == (if part.len() == 0 {
            Seq::<Seq<u8>>::empty()
        } else {
            seq![part]
        }),
{
    crate::text::split_around_a_separator(path, part, 47u8);
    split_parts_hold_no_separator(path, 47u8);
    crate::text::split_undoes_join(seq![part], 47u8);
    crate::text::joining_one_more(Seq::empty(), part, 47u8);
    assert(split_on(part, 47u8) =~= seq![part]);
    let parts = split_on(path, 47u8);
    assert((parts + seq![part]).drop_last() =~= parts);
    assert((parts + seq![part]).last() == part);
    assert(seq![part].drop_last() =~= Seq::<Seq<u8>>::empty());
    assert(components_of(Seq::<Seq<u8>>::empty()) =~= Seq::<Seq<u8>>::empty());
    assert(components(part) =~= (if part.len() == 0 {
        Seq::<Seq<u8>>::empty()
    } else {
        seq![part]
    }));
}

/// Sockets with different names are kept apart: two paths from the root that
/// differ in any name have different keys, and so do a path from the root and
/// one that is not.
pub proof fn different_names_have_different_keys(a: Seq<Seq<u8>>, b: Seq<Seq<u8>>)
    requires
        are_names(a),
        are_names(b),
    ensures
        ({
            let x = joined(a, 47u8);
            let y = joined(b, 47u8);
            &&& a != b ==> path_key(seq![47u8] + x) != path_key(seq![47u8] + y)
            &&& a != b ==> path_key(x) != path_key(y)
            &&& path_key(seq![47u8] + x) != path_key(y)
        }),
{
    let x = joined(a, 47u8);
    let y = joined(b, 47u8);
    components_are_the_names(a);
    components_are_the_names(b);
    same_key_means_same_components(seq![47u8] + x, seq![47u8] + y);
    same_key_means_same_components(x, y);
    same_key_means_same_components(seq![47u8] + x, y);
}

/// A path that is spelled plainly is its own key.
pub proof fn plain_paths_are_their_own_keys(names: Seq<Seq<u8>>)
    requires
        are_names(names),
    ensures
        path_key(joined(names, 47u8)) == joined(names, 47u8),
        path_key(seq![47u8] + joined(names, 47u8)) == seq![47u8] + joined(names, 47u8),
{
    components_are_the_names(names);
}

/// A path begins at the root exactly when it begins with a slash.
pub proof fn roots_begin_with_a_slash(c: u8, rest: Seq<u8>)
    ensures
        !is_rooted(Seq::<u8>::empty()),
        is_rooted(seq![c] + rest) == (c == 47u8),
{
}

/// A trailing slash, and a dot behind one, make no difference.
pub proof fn trailing_slashes_make_no_difference(path: Seq<u8>)
    requires
        path.len() > 0,
    ensures
        path_key(path + seq![47u8]) == path_key(path),
        path_key(path + seq![47u8, 46u8]) == path_key(path),
{
    components_after_a_slash(path, Seq::empty());
    components_after_a_slash(path, seq![46u8]);
    assert(path + seq![47u8] + Seq::<u8>::empty() =~= path + seq![47u8]);
    assert(path + seq![47u8] + seq![46u8] =~= path + seq![47u8, 46u8]);
}

} // verus!
