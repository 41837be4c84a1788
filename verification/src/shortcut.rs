//! Key bindings: tables from shortcut text (such as "ctrl+s") to actions.

use crate::text::same_text;
use vstd::prelude::*;

verus! {

/// A binding table seen as shortcut texts and actions.
pub open spec fn binding_views<A>(binds: Seq<(&str, A)>) -> Seq<(Seq<char>, A)> {
    binds.map_values(|b: (&str, A)| (b.0@, b.1))
}

/// The action of the first binding for `shortcut`, if any.
pub open spec fn binding_for<A>(binds: Seq<(Seq<char>, A)>, shortcut: Seq<char>) -> Option<A>
    decreases binds.len(),
{
    if binds.len() == 0 {
        None
    } else if binds[0].0 == shortcut {
        Some(binds[0].1)
    } else {
        binding_for(binds.drop_first(), shortcut)
    }
}

/// A shortcut is bound only by a binding whose text equals it: the action
/// found is that of the first binding with exactly that text, and no action
/// is found when no binding has that text.
pub proof fn lemma_binding_is_first_exact_match<A>(binds: Seq<(Seq<char>, A)>, shortcut: Seq<char>)
    ensures
        binding_for(binds, shortcut) matches Some(a) ==> exists|i: int|
            0 <= i < binds.len() && #[trigger] binds[i].0 == shortcut && binds[i].1 == a && forall|
                j: int,
            | 0 <= j < i ==> binds[j].0 != shortcut,
        binding_for(binds, shortcut) is None ==> forall|i: int|
            0 <= i < binds.len() ==> #[trigger] binds[i].0 != shortcut,
    decreases binds.len(),
{
    if binds.len() > 0 {
        let rest = binds.drop_first();
        lemma_binding_is_first_exact_match(rest, shortcut);
        if binds[0].0 != shortcut {
            if let Some(a) = binding_for(binds, shortcut) {
                let i = choose|i: int|
                    0 <= i < rest.len() && #[trigger] rest[i].0 == shortcut && rest[i].1 == a
                        && forall|j: int| 0 <= j < i ==> rest[j].0 != shortcut;
                assert(binds[i + 1] == rest[i]);
                assert forall|j: int| 0 <= j < i + 1 implies binds[j].0 != shortcut by {
                    if j > 0 {
                        assert(binds[j] == rest[j - 1]);
                    }
                }
            } else {
                assert forall|i: int| 0 <= i < binds.len() implies #[trigger] binds[i].0 != shortcut by {
                    if i > 0 {
                        assert(binds[i] == rest[i - 1]);
                    }
                }
            }
        }
    }
}

/// The action bound to `shortcut`: that of its first binding.
pub fn lookup_shortcut<A: Copy>(binds: &Vec<(&str, A)>, shortcut: &str) -> (r: Option<A>)
    ensures
        r == binding_for(binding_views(binds@), shortcut@),
        r matches Some(a) ==> exists|i: int|
            0 <= i < binds@.len() && (#[trigger] binds@[i]).0@ == shortcut@ && binds@[i].1 == a
                && forall|j: int| 0 <= j < i ==> binds@[j].0@ != shortcut@,
        r is None ==> forall|i: int| 0 <= i < binds@.len() ==> (#[trigger] binds@[i]).0@ != shortcut@,
{
    let r = find_binding(binds, shortcut);
    proof {
        let v = binding_views(binds@);
        lemma_binding_is_first_exact_match(v, shortcut@);
        assert forall|i: int| 0 <= i < binds@.len() implies #[trigger] v[i] == (
        binds@[i].0@, binds@[i].1) by {}
        if let Some(a) = r {
            let i = choose|i: int|
                0 <= i < v.len() && #[trigger] v[i].0 == shortcut@ && v[i].1 == a && forall|j: int|
                    0 <= j < i ==> v[j].0 != shortcut@;
            assert(v[i] == (binds@[i].0@, binds@[i].1));
            assert forall|j: int| 0 <= j < i implies binds@[j].0@ != shortcut@ by {
                assert(v[j] == (binds@[j].0@, binds@[j].1));
            }
        } else {
            assert forall|i: int| 0 <= i < binds@.len() implies (#[trigger] binds@[i]).0@ != shortcut@ by {
                assert(v[i] == (binds@[i].0@, binds@[i].1));
                assert(v[i].0 != shortcut@);
            }
        }
    }
    r
}

/// The action of the first binding for `shortcut`, found by a scan.
fn find_binding<A: Copy>(binds: &Vec<(&str, A)>, shortcut: &str) -> (r: Option<A>)
    ensures
        r == binding_for(binding_views(binds@), shortcut@),
{
    let n = binds.len();
    let mut i: usize = 0;
    assert(binding_views(binds@).skip(0) =~= binding_views(binds@));
    while i < n
        invariant
            n == binds@.len(),
            i <= n,
            binding_for(binding_views(binds@), shortcut@) == binding_for(
                binding_views(binds@).skip(i as int),
                shortcut@,
            ),
        decreases n - i,
    {
        let ghost rest = binding_views(binds@).skip(i as int);
        assert(rest[0] == (binds@[i as int].0@, binds@[i as int].1));
        assert(rest.drop_first() =~= binding_views(binds@).skip(i + 1));
        if same_text(binds[i].0, shortcut) {
            return Some(binds[i].1);
        }
        i += 1;
    }
    assert(binding_views(binds@).skip(n as int) =~= Seq::<(Seq<char>, A)>::empty());
    None
}

} // verus!
