//! Facts about sequences without repeated members.
use vstd::prelude::*;

verus! {

/// Taking a value out of a sequence without repeats leaves the other members,
/// in a sequence without repeats, one shorter where the value was a member.
pub proof fn lemma_remove_value<A>(s: Seq<A>, x: A)
    requires
        s.no_duplicates(),
    ensures
        s.remove_value(x).no_duplicates(),
        forall|y: A| #[trigger] s.remove_value(x).contains(y) <==> (s.contains(y) && y != x),
        s.contains(x) ==> s.remove_value(x).len() == s.len() - 1,
        !s.contains(x) ==> s.remove_value(x) == s,
{
    s.index_of_first_ensures(x);
    let r = s.remove_value(x);
    match s.index_of_first(x) {
        Some(i) => {
            s.remove_ensures(i);
            assert forall|a: int, b: int| 0 <= a < r.len() && 0 <= b < r.len() && a != b implies r[a]
                != r[b] by {
                let a0 = if a < i {
                    a
                } else {
                    a + 1
                };
                let b0 = if b < i {
                    b
                } else {
                    b + 1
                };
                assert(r[a] == s[a0]);
                assert(r[b] == s[b0]);
            }
            assert forall|y: A| #[trigger] r.contains(y) <==> (s.contains(y) && y != x) by {
                if r.contains(y) {
                    let a = choose|a: int| 0 <= a < r.len() && r[a] == y;
                    let a0 = if a < i {
                        a
                    } else {
                        a + 1
                    };
                    assert(r[a] == s[a0]);
                    assert(s.contains(y));
                    assert(a0 != i);
                }
                if s.contains(y) && y != x {
                    let b = choose|b: int| 0 <= b < s.len() && s[b] == y;
                    let b1 = if b < i {
                        b
                    } else {
                        b - 1
                    };
                    assert(r[b1] == y);
                }
            }
        },
        None => {},
    }
}

/// Appending a value that is no member keeps a sequence free of repeats.
pub proof fn lemma_push_new<A>(s: Seq<A>, x: A)
    requires
        s.no_duplicates(),
        !s.contains(x),
    ensures
        s.push(x).no_duplicates(),
        s.push(x).len() == s.len() + 1,
        forall|y: A| #[trigger] s.push(x).contains(y) <==> (s.contains(y) || y == x),
{
    let r = s.push(x);
    assert forall|a: int, b: int| 0 <= a < r.len() && 0 <= b < r.len() && a != b implies r[a]
        != r[b] by {
        if a < s.len() {
            assert(s.contains(r[a]));
        }
        if b < s.len() {
            assert(s.contains(r[b]));
        }
    }
    assert forall|y: A| #[trigger] r.contains(y) <==> (s.contains(y) || y == x) by {
        if r.contains(y) {
            let a = choose|a: int| 0 <= a < r.len() && r[a] == y;
            if a < s.len() {
                assert(s[a] == y);
            }
        }
        if s.contains(y) {
            let b = choose|b: int| 0 <= b < s.len() && s[b] == y;
            assert(r[b] == y);
        }
        if y == x {
            assert(r[s.len() as int] == x);
        }
    }
}

} // verus!
