//! Paths, as bytes.

use vstd::prelude::*;

verus! {

/// The separator of path components: `/`.
pub const SEPARATOR: u8 = 0x2F;

/// How many bytes stand in front of the first separator.
pub open spec fn name_len(path: Seq<u8>) -> nat
    decreases path.len(),
{
    if path.len() == 0 || path[0] == SEPARATOR {
        0
    } else {
        1 + name_len(path.drop_first())
    }
}

/// The components of a path: what stands between separators, without the
/// empty ones.
pub open spec fn components(path: Seq<u8>) -> Seq<Seq<u8>>
    decreases path.len(),
    via components_decreases
{
    if path.len() == 0 {
        Seq::empty()
    } else if path[0] == SEPARATOR {
        components(path.drop_first())
    } else {
        let n = name_len(path) as int;
        seq![path.take(n)] + components(path.skip(n))
    }
}

#[via_fn]
proof fn components_decreases(path: Seq<u8>) {
    lemma_name_len(path);
}

/// A name runs up to a separator or the end of the path, and holds none.
pub proof fn lemma_name_len(path: Seq<u8>)
    ensures
        name_len(path) <= path.len(),
        path.len() > 0 && path[0] != SEPARATOR ==> name_len(path) >= 1,
        name_len(path) < path.len() ==> path[name_len(path) as int] == SEPARATOR,
        forall|i: int| 0 <= i < name_len(path) ==> #[trigger] path[i] != SEPARATOR,
    decreases path.len(),
{
    if path.len() > 0 && path[0] != SEPARATOR {
        let rest = path.drop_first();
        lemma_name_len(rest);
        assert forall|i: int| 0 <= i < name_len(path) implies #[trigger] path[i] != SEPARATOR by {
            if i > 0 {
                assert(rest[i - 1] == path[i]);
            }
        }
    }
}

/// The length of the name at `from`.
pub fn name_len_at(path: &[u8], from: usize) -> (r: usize)
    requires
        from <= path.len(),
    ensures
        r == name_len(path@.skip(from as int)),
        from + r <= path.len(),
{
    let mut n: usize = 0;
    assert(path@.skip(from as int).skip(0) =~= path@.skip(from as int));
    while from + n < path.len() && path[from + n] != SEPARATOR
        invariant
            from + n <= path.len(),
            name_len(path@.skip(from as int)) == n + name_len(path@.skip(from + n)),
        decreases path.len() - from - n,
    {
        assert(path@.skip(from + n).drop_first() =~= path@.skip(from + n + 1));
        n = n + 1;
    }
    n
}

/// A component is never empty and holds no separator.
pub proof fn components_are_names(path: Seq<u8>, i: int)
    requires
        0 <= i < components(path).len(),
    ensures
        components(path)[i].len() > 0,
        forall|k: int|
            0 <= k < components(path)[i].len() ==> #[trigger] components(path)[i][k] != SEPARATOR,
    decreases path.len(),
{
    lemma_name_len(path);
    if path[0] == SEPARATOR {
        components_are_names(path.drop_first(), i);
    } else if i > 0 {
        let n = name_len(path) as int;
        assert(components(path)[i] == components(path.skip(n))[i - 1]);
        components_are_names(path.skip(n), i - 1);
    }
}

/// A separator at the end of a path changes nothing.
pub proof fn trailing_separator_changes_nothing(path: Seq<u8>)
    ensures
        components(path.push(SEPARATOR)) == components(path),
    decreases path.len(),
{
    let longer = path.push(SEPARATOR);
    if path.len() == 0 {
        assert(longer.drop_first() =~= Seq::empty());
        assert(components(longer.drop_first()) =~= Seq::<Seq<u8>>::empty());
    } else if path[0] == SEPARATOR {
        assert(longer.drop_first() =~= path.drop_first().push(SEPARATOR));
        trailing_separator_changes_nothing(path.drop_first());
    } else {
        lemma_name_len(path);
        lemma_name_len(longer);
        lemma_name_len_pushed(path);
        let n = name_len(path) as int;
        assert(longer.take(n) =~= path.take(n));
        assert(longer.skip(n) =~= path.skip(n).push(SEPARATOR));
        trailing_separator_changes_nothing(path.skip(n));
    }
}

proof fn lemma_name_len_pushed(path: Seq<u8>)
    ensures
        name_len(path.push(SEPARATOR)) == name_len(path),
    decreases path.len(),
{
    if path.len() > 0 && path[0] != SEPARATOR {
        assert(path.push(SEPARATOR).drop_first() =~= path.drop_first().push(SEPARATOR));
        lemma_name_len_pushed(path.drop_first());
    }
}

/// The last component of a path, or `/` where it has none.
pub open spec fn last_name(path: Seq<u8>) -> Seq<u8> {
    if components(path).len() == 0 {
        seq![SEPARATOR]
    } else {
        components(path).last()
    }
}

/// Whether two byte strings are the same.
pub fn same_bytes(a: &[u8], b: &[u8]) -> (r: bool)
    ensures
        r == (a@ == b@),
{
    if a.len() != b.len() {
        return false;
    }
    let mut i: usize = 0;
    while i < a.len()
        invariant
            i <= a.len(),
            a@.len() == b@.len(),
            forall|k: int| 0 <= k < i ==> a@[k] == b@[k],
        decreases a.len() - i,
    {
        if a[i] != b[i] {
            return false;
        }
        i = i + 1;
    }
    assert(a@ =~= b@);
    true
}

/// A path that is made of two with a separator between them has the names of
/// the first and then those of the second. With [`one_name_is_itself`] this
/// says what the names of any path are.
pub proof fn names_of_joined_paths(first: Seq<u8>, second: Seq<u8>)
    ensures
        components(first.push(SEPARATOR) + second) == components(first) + components(second),
    decreases first.len(),
{
    let whole = first.push(SEPARATOR) + second;
    if first.len() == 0 {
        assert(whole.drop_first() =~= second);
        assert(components(first) + components(second) =~= components(second));
    } else if first[0] == SEPARATOR {
        assert(whole.drop_first() =~= first.drop_first().push(SEPARATOR) + second);
        names_of_joined_paths(first.drop_first(), second);
    } else {
        lemma_name_len(first);
        lemma_name_len(whole);
        let n = name_len(first) as int;
        let m = name_len(whole) as int;
        if m < n {
            assert(whole[m] == first[m]);
        }
        if m > n {
            assert(whole[n] == SEPARATOR);
        }
        assert(whole.take(n) =~= first.take(n));
        assert(whole.skip(n) =~= first.skip(n).push(SEPARATOR) + second);
        names_of_joined_paths(first.skip(n), second);
        assert(seq![first.take(n)] + (components(first.skip(n)) + components(second)) =~= (seq![
            first.take(n),
        ] + components(first.skip(n))) + components(second));
    }
}

/// What holds no separator, the byte `/`, is one name, and the empty path has
/// none.
pub proof fn one_name_is_itself(name: Seq<u8>)
    requires
        forall|k: int| 0 <= k < name.len() ==> #[trigger] name[k] != 0x2F,
    ensures
        name.len() > 0 ==> components(name) == seq![name],
        name.len() == 0 ==> components(name) == Seq::<Seq<u8>>::empty(),
        name.len() > 0 ==> last_name(name) == name,
        name.len() == 0 ==> last_name(name) == seq![0x2Fu8],
{
    if name.len() > 0 {
        lemma_name_len(name);
        let n = name_len(name) as int;
        assert(n == name.len());
        assert(name.take(n) =~= name);
        assert(name.skip(n) =~= Seq::empty());
        assert(components(name.skip(n)) =~= Seq::<Seq<u8>>::empty());
        assert(seq![name] + Seq::<Seq<u8>>::empty() =~= seq![name]);
    }
}

/// The last name of a path is that of its end, or of its start where the end
/// has none.
pub proof fn last_name_is_at_the_end(first: Seq<u8>, second: Seq<u8>)
    ensures
        components(second).len() > 0 ==> last_name(first.push(SEPARATOR) + second) == last_name(
            second,
        ),
        components(second).len() == 0 ==> last_name(first.push(SEPARATOR) + second) == last_name(
            first,
        ),
{
    names_of_joined_paths(first, second);
    let all = components(first) + components(second);
    if components(second).len() == 0 {
        assert(all =~= components(first));
    }
}

} // verus!
